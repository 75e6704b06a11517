//! ASCII table column formats and layout.
use vstd::prelude::*;

use crate::bintable::{numbered_str, numbered_string_value, splice, tform_name, ttype_name, value_card, write_cell};
use crate::error::{Error, Result};
use crate::hdu::{numbered_int, numbered_integer_value, Hdu, HduInfo, HduInfoModel, HduModel};
use crate::header::{cards_view, indexed_keyword, indexed_keyword_exec, serialize_header, spec_serialize_header, Card, CardModel, StandardKeyword};
use crate::block::{lemma_padded_len_bounds, padded_byte_len, spec_padded_len};
use crate::value::{Value, ValueModel};
use crate::text::{
    all_digits, ascii_chars, chars_of, digits_value, is_digit, is_ws, nat_digits, parse_i64_chars, parse_usize_chars,
    spec_parse_i64, spec_parse_usize, str_from_utf8, string_from_bytes, string_from_chars, trim, trim_bounds, trim_end,
    trim_end_index, trim_start, u64_decimal,
};
use vstd::utf8::{decode_utf8, encode_utf8, valid_utf8};

verus! {

/// The format code for an ASCII table column, parsed from a TFORMn keyword.
#[derive(Debug, Clone, PartialEq, Eq)]
pub enum AsciiColumnFormat {
    /// `Aw` -- character string, `w` characters wide.
    Character(usize),
    /// `Iw` -- integer, `w` characters wide.
    Integer(usize),
    /// `Fw.d` -- fixed-point decimal, `w` wide with `d` decimal places.
    FloatF(usize, usize),
    /// `Ew.d` -- single-precision exponential, `w` wide with `d` decimal places.
    FloatE(usize, usize),
    /// `Dw.d` -- double-precision exponential, `w` wide with `d` decimal places.
    DoubleE(usize, usize),
}

/// The width of a field of this format.
pub open spec fn format_width(f: AsciiColumnFormat) -> usize {
    match f {
        AsciiColumnFormat::Character(w) => w,
        AsciiColumnFormat::Integer(w) => w,
        AsciiColumnFormat::FloatF(w, _) => w,
        AsciiColumnFormat::FloatE(w, _) => w,
        AsciiColumnFormat::DoubleE(w, _) => w,
    }
}

impl AsciiColumnFormat {
    /// Return the total width in bytes of a field with this format.
    pub fn width(&self) -> (r: usize)
        ensures
            r == format_width(*self),
    {
        match self {
            AsciiColumnFormat::Character(w) => *w,
            AsciiColumnFormat::Integer(w) => *w,
            AsciiColumnFormat::FloatF(w, _) => *w,
            AsciiColumnFormat::FloatE(w, _) => *w,
            AsciiColumnFormat::DoubleE(w, _) => *w,
        }
    }
}

/// The index of the first `.` in `s`, if any.
pub open spec fn first_dot(s: Seq<char>, i: int) -> Option<int>
    decreases s.len() - i,
{
    if i < 0 || i >= s.len() {
        None
    } else if s[i] == '.' {
        Some(i)
    } else {
        first_dot(s, i + 1)
    }
}

/// Width and decimals of `w.d`.
pub open spec fn spec_width_decimal(s: Seq<char>) -> core::result::Result<(usize, usize), Error> {
    match first_dot(s, 0) {
        None => Err(Error::InvalidValue),
        Some(dot) => match spec_parse_usize(s.subrange(0, dot)) {
            None => Err(Error::InvalidValue),
            Some(w) => match spec_parse_usize(s.subrange(dot + 1, s.len() as int)) {
                None => Err(Error::InvalidValue),
                Some(d) => Ok((w, d)),
            },
        },
    }
}

/// The column format that an ASCII-table TFORM value such as `A20`, `I10`,
/// `F12.4`, `E15.7` or `D25.17` gives.
pub open spec fn spec_parse_tform_ascii(s: Seq<char>) -> core::result::Result<AsciiColumnFormat, Error> {
    let t = trim(s);
    if t.len() == 0 {
        Err(Error::InvalidValue)
    } else {
        let rest = t.drop_first();
        if t[0] == 'A' || t[0] == 'I' {
            match spec_parse_usize(rest) {
                None => Err(Error::InvalidValue),
                Some(w) => Ok(if t[0] == 'A' { AsciiColumnFormat::Character(w) } else { AsciiColumnFormat::Integer(w) }),
            }
        } else if t[0] == 'F' || t[0] == 'E' || t[0] == 'D' {
            match spec_width_decimal(rest) {
                Err(e) => Err(e),
                Ok((w, d)) => Ok(if t[0] == 'F' {
                    AsciiColumnFormat::FloatF(w, d)
                } else if t[0] == 'E' {
                    AsciiColumnFormat::FloatE(w, d)
                } else {
                    AsciiColumnFormat::DoubleE(w, d)
                }),
            }
        } else {
            Err(Error::InvalidValue)
        }
    }
}

/// The TFORM value starts, once trimmed, with an ASCII character (or is
/// empty), so that the code letter can be cut off.
pub open spec fn tform_ascii_sliceable(s: Seq<char>) -> bool {
    trim(s).len() > 0 ==> (trim(s)[0] as u32) < 128
}

/// Parse a FITS ASCII-table TFORM string such as `"A20"`, `"I10"`, `"F12.4"`,
/// `"E15.7"`, or `"D25.17"`.
pub fn parse_tform_ascii(s: &str) -> (r: Result<AsciiColumnFormat>)
    requires
        tform_ascii_sliceable(s@),
    ensures
        r matches Ok(f) ==> spec_parse_tform_ascii(s@) == Ok::<AsciiColumnFormat, Error>(f),
        r matches Err(e) ==> spec_parse_tform_ascii(s@) == Err::<AsciiColumnFormat, Error>(e),
{
    let cs = chars_of(s);
    let (b, e) = trim_bounds(&cs, 0, cs.len());
    assert(cs@.subrange(0, cs@.len() as int) =~= cs@);
    let ghost t = trim(s@);
    assert(t == cs@.subrange(b as int, e as int));
    if b == e {
        return Err(Error::InvalidValue);
    }
    let code = cs[b];
    assert(t.drop_first() == cs@.subrange(b + 1, e as int));
    if code == 'A' || code == 'I' {
        let w = match parse_usize_chars(&cs, b + 1, e) {
            Some(w) => w,
            None => return Err(Error::InvalidValue),
        };
        return Ok(if code == 'A' { AsciiColumnFormat::Character(w) } else { AsciiColumnFormat::Integer(w) });
    }
    if code == 'F' || code == 'E' || code == 'D' {
        let mut dot = b + 1;
        while dot < e && cs[dot] != '.'
            invariant
                b + 1 <= dot <= e,
                e <= cs@.len(),
                t.drop_first() == cs@.subrange(b + 1, e as int),
                first_dot(t.drop_first(), dot - (b + 1)) == first_dot(t.drop_first(), 0),
            decreases e - dot,
        {
            dot += 1;
        }
        if dot == e {
            return Err(Error::InvalidValue);
        }
        assert(t.drop_first().subrange(0, dot - (b + 1)) == cs@.subrange(b + 1, dot as int));
        assert(t.drop_first().subrange(dot - (b + 1) + 1, t.drop_first().len() as int) == cs@.subrange(dot + 1, e as int));
        let w = match parse_usize_chars(&cs, b + 1, dot) {
            Some(w) => w,
            None => return Err(Error::InvalidValue),
        };
        let d = match parse_usize_chars(&cs, dot + 1, e) {
            Some(d) => d,
            None => return Err(Error::InvalidValue),
        };
        return Ok(if code == 'F' {
            AsciiColumnFormat::FloatF(w, d)
        } else if code == 'E' {
            AsciiColumnFormat::FloatE(w, d)
        } else {
            AsciiColumnFormat::DoubleE(w, d)
        });
    }
    Err(Error::InvalidValue)
}

/// The TFORM text of a format: the code letter, the width, and for the
/// floating formats a `.` and the decimals.
pub open spec fn spec_format_tform(f: AsciiColumnFormat) -> Seq<char> {
    match f {
        AsciiColumnFormat::Character(w) => seq!['A'] + ascii_chars(nat_digits(w as nat)),
        AsciiColumnFormat::Integer(w) => seq!['I'] + ascii_chars(nat_digits(w as nat)),
        AsciiColumnFormat::FloatF(w, d) => seq!['F'] + ascii_chars(nat_digits(w as nat)) + seq!['.'] + ascii_chars(nat_digits(d as nat)),
        AsciiColumnFormat::FloatE(w, d) => seq!['E'] + ascii_chars(nat_digits(w as nat)) + seq!['.'] + ascii_chars(nat_digits(d as nat)),
        AsciiColumnFormat::DoubleE(w, d) => seq!['D'] + ascii_chars(nat_digits(w as nat)) + seq!['.'] + ascii_chars(nat_digits(d as nat)),
    }
}

/// The TFORM text of a format.
pub fn format_tform(fmt: &AsciiColumnFormat) -> (r: String)
    ensures
        r@ == spec_format_tform(*fmt),
{
    let mut bytes: Vec<u8> = Vec::new();
    let (code, w, d): (u8, usize, Option<usize>) = match fmt {
        AsciiColumnFormat::Character(w) => (65u8, *w, None),
        AsciiColumnFormat::Integer(w) => (73u8, *w, None),
        AsciiColumnFormat::FloatF(w, d) => (70u8, *w, Some(*d)),
        AsciiColumnFormat::FloatE(w, d) => (69u8, *w, Some(*d)),
        AsciiColumnFormat::DoubleE(w, d) => (68u8, *w, Some(*d)),
    };
    bytes.push(code);
    append_bytes(&mut bytes, &u64_decimal(w as u64));
    match d {
        Some(dv) => {
            bytes.push(46u8);
            append_bytes(&mut bytes, &u64_decimal(dv as u64));
        },
        None => {},
    }
    let s = string_from_bytes(bytes.as_slice());
    proof {
        let wd = nat_digits(w as nat);
        match *fmt {
            AsciiColumnFormat::Character(_) | AsciiColumnFormat::Integer(_) => {
                assert(bytes@ =~= seq![code] + wd);
                assert(ascii_chars(bytes@) =~= seq![code as char] + ascii_chars(wd));
            },
            _ => {
                let dd = nat_digits(d.unwrap() as nat);
                assert(bytes@ =~= seq![code] + wd + seq![46u8] + dd);
                assert(ascii_chars(bytes@) =~= seq![code as char] + ascii_chars(wd) + seq!['.'] + ascii_chars(dd));
            },
        }
    }
    s
}

/// Append `src` to `dst`.
fn append_bytes(dst: &mut Vec<u8>, src: &Vec<u8>)
    ensures
        final(dst)@ == old(dst)@ + src@,
{
    let mut i: usize = 0;
    while i < src.len()
        invariant
            i <= src@.len(),
            dst@ == old(dst)@ + src@.subrange(0, i as int),
        decreases src@.len() - i,
    {
        dst.push(src[i]);
        i += 1;
        assert(dst@ =~= old(dst)@ + src@.subrange(0, i as int));
    }
    assert(src@.subrange(0, src@.len() as int) =~= src@);
}

// ── The round trip ──

/// The decimal digits of a number, read back as a number.
pub proof fn lemma_digits_roundtrip(n: nat)
    ensures
        all_digits(ascii_chars(nat_digits(n))),
        digits_value(ascii_chars(nat_digits(n))) == n,
        ascii_chars(nat_digits(n)).len() > 0,
        forall|i: int| 0 <= i < ascii_chars(nat_digits(n)).len() ==> #[trigger] ascii_chars(nat_digits(n))[i] != '.'
            && ascii_chars(nat_digits(n))[i] != '+' && !is_ws(ascii_chars(nat_digits(n))[i]),
    decreases n,
{
    let s = ascii_chars(nat_digits(n));
    let c = ((48 + n % 10) as u8) as char;
    assert(c as int == 48 + n % 10);
    if n >= 10 {
        lemma_digits_roundtrip(n / 10);
        let p = ascii_chars(nat_digits(n / 10));
        assert(s =~= p.push(c));
        assert(s.drop_last() =~= p);
        assert(s.last() == c);
        assert(digits_value(s) == digits_value(p) * 10 + (c as int - 48));
    } else {
        assert(s =~= seq![c]);
        assert(s.drop_last() =~= Seq::<char>::empty());
        assert(digits_value(s) == digits_value(s.drop_last()) * 10 + (s.last() as int - 48));
    }
}

/// Parsing the decimal digits of a `usize` gives it back.
pub proof fn lemma_parse_digits(n: usize)
    ensures
        spec_parse_usize(ascii_chars(nat_digits(n as nat))) == Some(n),
{
    lemma_digits_roundtrip(n as nat);
    let s = ascii_chars(nat_digits(n as nat));
    assert(s[0] != '+');
}

/// Formatting a column format as TFORM text and parsing it back gives the
/// same format.
pub proof fn lemma_tform_ascii_roundtrip(f: AsciiColumnFormat)
    ensures
        tform_ascii_sliceable(spec_format_tform(f)),
        spec_parse_tform_ascii(spec_format_tform(f)) == Ok::<AsciiColumnFormat, Error>(f),
{
    let t = spec_format_tform(f);
    let w = format_width(f);
    lemma_parse_digits(w);
    let wd = ascii_chars(nat_digits(w as nat));
    lemma_digits_roundtrip(w as nat);
    assert(!is_ws(t[0]));
    assert(!is_ws(t.last()));
    assert(trim_end(t) == t);
    assert(trim_start(t) == t);
    assert(trim(t) == t);
    match f {
        AsciiColumnFormat::Character(_) | AsciiColumnFormat::Integer(_) => {
            assert(t.drop_first() =~= wd);
        },
        AsciiColumnFormat::FloatF(_, d) | AsciiColumnFormat::FloatE(_, d) | AsciiColumnFormat::DoubleE(_, d) => {
            lemma_parse_digits(d);
            lemma_digits_roundtrip(d as nat);
            let dd = ascii_chars(nat_digits(d as nat));
            let rest = t.drop_first();
            assert(rest =~= wd + seq!['.'] + dd);
            lemma_first_dot_at(rest, wd.len() as int);
            assert(rest.subrange(0, wd.len() as int) =~= wd);
            assert(rest.subrange(wd.len() as int + 1, rest.len() as int) =~= dd);
        },
    }
}

/// The first `.` is at `k` when `s[k]` is one and none comes before.
proof fn lemma_first_dot_at(s: Seq<char>, k: int)
    requires
        0 <= k < s.len(),
        s[k] == '.',
        forall|i: int| 0 <= i < k ==> s[i] != '.',
    ensures
        first_dot(s, 0) == Some(k),
{
    lemma_first_dot_from(s, 0, k);
}

proof fn lemma_first_dot_from(s: Seq<char>, i: int, k: int)
    requires
        0 <= i <= k < s.len(),
        s[k] == '.',
        forall|j: int| i <= j < k ==> s[j] != '.',
    ensures
        first_dot(s, i) == Some(k),
    decreases k - i,
{
    if i < k {
        lemma_first_dot_from(s, i + 1, k);
    }
}

// ── Column descriptors ──

/// Describes one column in an ASCII table extension.
#[derive(Debug, Clone, PartialEq)]
pub struct AsciiColumnDescriptor {
    /// Column name from TTYPEn (may be absent).
    pub name: Option<String>,
    /// The format code from TFORMn.
    pub format: AsciiColumnFormat,
    /// 0-indexed byte position within the row (converted from 1-indexed TBCOLn).
    pub tbcol: usize,
}

/// The content of an [`AsciiColumnDescriptor`].
pub struct AsciiColumnModel {
    pub name: Option<Seq<char>>,
    pub format: AsciiColumnFormat,
    pub tbcol: usize,
}

impl View for AsciiColumnDescriptor {
    type V = AsciiColumnModel;

    open spec fn view(&self) -> AsciiColumnModel {
        AsciiColumnModel {
            name: match self.name { Some(n) => Some(n@), None => None },
            format: self.format,
            tbcol: self.tbcol,
        }
    }
}

/// The bytes `TBCOL`.
pub open spec fn tbcol_name() -> Seq<u8> {
    seq![84u8, 66u8, 67u8, 79u8, 76u8]
}

/// Column `n` (1-based) of an ASCII table, from TFORMn, TBCOLn and TTYPEn.
pub open spec fn spec_ascii_column(cards: Seq<CardModel>, n: nat) -> core::result::Result<AsciiColumnModel, Error> {
    match numbered_str(cards, tform_name(), n) {
        None => Err(Error::MissingKeyword("TFORMn")),
        Some(tf) => match spec_parse_tform_ascii(tf) {
            Err(e) => Err(e),
            Ok(format) => match numbered_int(cards, tbcol_name(), n) {
                None => Err(Error::MissingKeyword("TBCOLn")),
                Some(tb) => if tb < 1 {
                    Err(Error::InvalidValue)
                } else {
                    Ok(AsciiColumnModel {
                        name: numbered_str(cards, ttype_name(), n),
                        format,
                        tbcol: ((tb - 1) as i64) as usize,
                    })
                },
            },
        },
    }
}

/// Columns 1..=k of an ASCII table.
pub open spec fn spec_ascii_columns(cards: Seq<CardModel>, k: nat) -> core::result::Result<Seq<AsciiColumnModel>, Error>
    decreases k,
{
    if k == 0 {
        Ok(Seq::empty())
    } else {
        match spec_ascii_columns(cards, (k - 1) as nat) {
            Err(e) => Err(e),
            Ok(cols) => match spec_ascii_column(cards, k) {
                Err(e) => Err(e),
                Ok(c) => Ok(cols.push(c)),
            },
        }
    }
}

proof fn lemma_ascii_columns_err(cards: Seq<CardModel>, m: nat, n: nat)
    requires
        m <= n,
        spec_ascii_columns(cards, m) is Err,
    ensures
        spec_ascii_columns(cards, n) == spec_ascii_columns(cards, m),
    decreases n - m,
{
    if m < n {
        lemma_ascii_columns_err(cards, m, (n - 1) as nat);
    }
}

/// Every TFORMn value among the first `k` columns starts with an ASCII
/// character once trimmed.
pub open spec fn ascii_tforms_sliceable(cards: Seq<CardModel>, k: nat) -> bool {
    forall|n: nat| 1 <= n <= k ==> (#[trigger] numbered_str(cards, tform_name(), n) matches Some(tf) ==> tform_ascii_sliceable(tf))
}

/// The views of a sequence of column descriptors.
pub open spec fn ascii_columns_view(cols: Seq<AsciiColumnDescriptor>) -> Seq<AsciiColumnModel> {
    Seq::new(cols.len(), |i: int| cols[i]@)
}

/// Extract column descriptors from the header cards of an ASCII table extension.
///
/// Reads `TFORMn`, `TBCOLn`, and optionally `TTYPEn` for each column
/// `n` in `1..=tfields`.
pub fn parse_ascii_table_columns(cards: &[Card], tfields: usize) -> (r: Result<Vec<AsciiColumnDescriptor>>)
    requires
        ascii_tforms_sliceable(cards_view(cards@), tfields as nat),
    ensures
        r matches Ok(v) ==> spec_ascii_columns(cards_view(cards@), tfields as nat)
            == Ok::<Seq<AsciiColumnModel>, Error>(ascii_columns_view(v@)),
        r matches Err(e) ==> spec_ascii_columns(cards_view(cards@), tfields as nat)
            == Err::<Seq<AsciiColumnModel>, Error>(e),
{
    let ghost cv = cards_view(cards@);
    let tform = [84u8, 70u8, 79u8, 82u8, 77u8];
    let ttype = [84u8, 84u8, 89u8, 80u8, 69u8];
    let tbcol = [84u8, 66u8, 67u8, 79u8, 76u8];
    assert(tform@ =~= tform_name());
    assert(ttype@ =~= ttype_name());
    assert(tbcol@ =~= tbcol_name());
    let mut columns: Vec<AsciiColumnDescriptor> = Vec::new();
    assert(ascii_columns_view(columns@) =~= Seq::<AsciiColumnModel>::empty());
    let mut k: usize = 0;
    while k < tfields
        invariant
            k <= tfields,
            columns@.len() == k,
            cv == cards_view(cards@),
            tform@ == tform_name(),
            ttype@ == ttype_name(),
            tbcol@ == tbcol_name(),
            ascii_tforms_sliceable(cv, tfields as nat),
            spec_ascii_columns(cv, k as nat) == Ok::<Seq<AsciiColumnModel>, Error>(ascii_columns_view(columns@)),
        decreases tfields - k,
    {
        let i = k + 1;
        let tf = match numbered_string_value(cards, &tform, i) {
            Some(s) => s,
            None => {
                proof { lemma_ascii_columns_err(cv, i as nat, tfields as nat); }
                return Err(Error::MissingKeyword("TFORMn"));
            },
        };
        assert(numbered_str(cv, tform_name(), i as nat) == Some(tf@));
        let format = match parse_tform_ascii(tf.as_str()) {
            Ok(f) => f,
            Err(e) => {
                proof { lemma_ascii_columns_err(cv, i as nat, tfields as nat); }
                return Err(e);
            },
        };
        let tb = match numbered_integer_value(cards, &tbcol, i) {
            Some(v) => v,
            None => {
                proof { lemma_ascii_columns_err(cv, i as nat, tfields as nat); }
                return Err(Error::MissingKeyword("TBCOLn"));
            },
        };
        if tb < 1 {
            proof { lemma_ascii_columns_err(cv, i as nat, tfields as nat); }
            return Err(Error::InvalidValue);
        }
        let name = numbered_string_value(cards, &ttype, i);
        let ghost old_cols = columns@;
        columns.push(AsciiColumnDescriptor { name, format, tbcol: (tb - 1) as usize });
        proof {
            assert(ascii_columns_view(columns@) =~= ascii_columns_view(old_cols).push(columns@[k as int]@));
        }
        k += 1;
    }
    Ok(columns)
}

// ── Header cards ──

/// The row width of an ASCII table: the largest end of a column's field (0
/// without columns).
pub open spec fn ascii_row_width(cols: Seq<AsciiColumnModel>) -> int
    decreases cols.len(),
{
    if cols.len() == 0 {
        0
    } else {
        let w = ascii_row_width(cols.drop_last());
        let e = cols.last().tbcol + format_width(cols.last().format);
        if e > w { e } else { w }
    }
}

/// Every column's field, and its 1-based start, lie within a `usize`.
pub open spec fn ascii_columns_fit(cols: Seq<AsciiColumnModel>) -> bool {
    forall|i: int| 0 <= i < cols.len() ==> (#[trigger] cols[i]).tbcol + format_width(cols[i].format) <= usize::MAX
        && cols[i].tbcol < usize::MAX
}

/// The TFORMn and TBCOLn cards and, for a named column, the TTYPEn card of
/// column `n` (1-based).
pub open spec fn ascii_column_cards(col: AsciiColumnModel, n: nat) -> Seq<CardModel> {
    seq![
        value_card(indexed_keyword(tform_name(), n), ValueModel::Str(spec_format_tform(col.format))),
        value_card(indexed_keyword(tbcol_name(), n), ValueModel::Integer(((col.tbcol + 1) as i64) as int)),
    ] + match col.name {
        Some(name) => seq![value_card(indexed_keyword(ttype_name(), n), ValueModel::Str(name))],
        None => Seq::empty(),
    }
}

/// The column cards of the first `k` columns.
pub open spec fn ascii_columns_cards(cols: Seq<AsciiColumnModel>, k: nat) -> Seq<CardModel>
    decreases k,
{
    if k == 0 {
        Seq::empty()
    } else {
        ascii_columns_cards(cols, (k - 1) as nat) + ascii_column_cards(cols[k - 1], k)
    }
}

/// The header cards of an ASCII table with these columns and `naxis2` rows.
pub open spec fn spec_ascii_table_cards(cols: Seq<AsciiColumnModel>, naxis2: usize) -> Seq<CardModel> {
    seq![
        value_card(StandardKeyword::Xtension.spec_keyword(), ValueModel::Str("TABLE"@)),
        value_card(StandardKeyword::Bitpix.spec_keyword(), ValueModel::Integer(8)),
        value_card(StandardKeyword::Naxis.spec_keyword(), ValueModel::Integer(2)),
        value_card(StandardKeyword::Naxis1.spec_keyword(), ValueModel::Integer((ascii_row_width(cols) as usize as i64) as int)),
        value_card(StandardKeyword::Naxis2.spec_keyword(), ValueModel::Integer((naxis2 as i64) as int)),
        value_card(StandardKeyword::Pcount.spec_keyword(), ValueModel::Integer(0)),
        value_card(StandardKeyword::Gcount.spec_keyword(), ValueModel::Integer(1)),
        value_card(StandardKeyword::Tfields.spec_keyword(), ValueModel::Integer((cols.len() as i64) as int)),
    ] + ascii_columns_cards(cols, cols.len())
}

/// A card with a keyword and a value and no comment.
fn value_card_exec(keyword: [u8; 8], value: Value) -> (r: Card)
    ensures
        r@ == value_card(keyword@, value@),
{
    Card { keyword, value: Some(value), comment: None }
}

/// Build the header cards for an ASCII table extension.
///
/// Creates XTENSION, BITPIX, NAXIS, NAXIS1, NAXIS2, PCOUNT, GCOUNT, TFIELDS,
/// and per-column TFORMn, TBCOLn, and TTYPEn cards.
pub fn build_ascii_table_cards(columns: &[AsciiColumnDescriptor], naxis2: usize) -> (r: Result<Vec<Card>>)
    requires
        ascii_columns_fit(ascii_columns_view(columns@)),
    ensures
        r matches Ok(cs) && cards_view(cs@) == spec_ascii_table_cards(ascii_columns_view(columns@), naxis2),
{
    let ghost cv = ascii_columns_view(columns@);
    let mut naxis1: usize = 0;
    let mut i: usize = 0;
    while i < columns.len()
        invariant
            i <= columns@.len(),
            cv == ascii_columns_view(columns@),
            ascii_columns_fit(cv),
            naxis1 == ascii_row_width(cv.subrange(0, i as int)),
        decreases columns@.len() - i,
    {
        let col = &columns[i];
        assert(cv[i as int] == col@);
        assert(cv.subrange(0, i + 1).drop_last() =~= cv.subrange(0, i as int));
        let e = col.tbcol + col.format.width();
        if e > naxis1 {
            naxis1 = e;
        }
        i += 1;
    }
    assert(cv.subrange(0, cv.len() as int) =~= cv);
    let tfields = columns.len();
    let mut cards: Vec<Card> = Vec::new();
    cards.push(value_card_exec(StandardKeyword::Xtension.keyword(), Value::String(String::from_str("TABLE"))));
    cards.push(value_card_exec(StandardKeyword::Bitpix.keyword(), Value::Integer(8)));
    cards.push(value_card_exec(StandardKeyword::Naxis.keyword(), Value::Integer(2)));
    cards.push(value_card_exec(StandardKeyword::Naxis1.keyword(), Value::Integer(naxis1 as i64)));
    cards.push(value_card_exec(StandardKeyword::Naxis2.keyword(), Value::Integer(naxis2 as i64)));
    cards.push(value_card_exec(StandardKeyword::Pcount.keyword(), Value::Integer(0)));
    cards.push(value_card_exec(StandardKeyword::Gcount.keyword(), Value::Integer(1)));
    cards.push(value_card_exec(StandardKeyword::Tfields.keyword(), Value::Integer(tfields as i64)));
    let ghost head = cards_view(cards@);
    assert(head =~= spec_ascii_table_cards(cv, naxis2).subrange(0, 8));
    let tform = [84u8, 70u8, 79u8, 82u8, 77u8];
    let tbcol = [84u8, 66u8, 67u8, 79u8, 76u8];
    let ttype = [84u8, 84u8, 89u8, 80u8, 69u8];
    assert(tform@ =~= tform_name());
    assert(tbcol@ =~= tbcol_name());
    assert(ttype@ =~= ttype_name());
    let mut i: usize = 0;
    while i < columns.len()
        invariant
            i <= columns@.len(),
            cv == ascii_columns_view(columns@),
            ascii_columns_fit(cv),
            tform@ == tform_name(),
            tbcol@ == tbcol_name(),
            ttype@ == ttype_name(),
            cards_view(cards@) == head + ascii_columns_cards(cv, i as nat),
        decreases columns@.len() - i,
    {
        let col = &columns[i];
        assert(cv[i as int] == col@);
        let n = i + 1;
        let ghost before = cards_view(cards@);
        cards.push(value_card_exec(indexed_keyword_exec(&tform, n as u64), Value::String(format_tform(&col.format))));
        let first = col.tbcol + 1;
        cards.push(value_card_exec(indexed_keyword_exec(&tbcol, n as u64), Value::Integer(first as i64)));
        match &col.name {
            Some(name) => {
                cards.push(value_card_exec(indexed_keyword_exec(&ttype, n as u64), Value::String(name.clone())));
            },
            None => {},
        }
        proof {
            assert(cards_view(cards@) =~= before + ascii_column_cards(cv[i as int], n as nat));
        }
        i += 1;
    }
    Ok(cards)
}

// ── Table data ──

/// The values of one ASCII table column. A floating-point field is held as
/// its text, trimmed.
#[derive(Debug, Clone, PartialEq)]
pub enum AsciiColumnData {
    /// Character/string column.
    Character(Vec<String>),
    /// Integer column.
    Integer(Vec<i64>),
    /// Float column (covers Fw.d, Ew.d, and Dw.d), each field's text.
    Float(Vec<String>),
}

/// The content of an [`AsciiColumnData`].
pub enum AsciiColumnValues {
    Character(Seq<Seq<char>>),
    Integer(Seq<i64>),
    Float(Seq<Seq<char>>),
}

impl View for AsciiColumnData {
    type V = AsciiColumnValues;

    open spec fn view(&self) -> AsciiColumnValues {
        match self {
            AsciiColumnData::Character(v) => AsciiColumnValues::Character(Seq::new(v@.len(), |i: int| v@[i]@)),
            AsciiColumnData::Integer(v) => AsciiColumnValues::Integer(v@),
            AsciiColumnData::Float(v) => AsciiColumnValues::Float(Seq::new(v@.len(), |i: int| v@[i]@)),
        }
    }
}

/// A sign.
pub open spec fn sign_char(c: char) -> bool {
    c == '+' || c == '-'
}

/// An exponent letter: `e` or `E`, and `d` or `D` as FITS writes it.
pub open spec fn exp_char(c: char) -> bool {
    c == 'e' || c == 'E' || c == 'd' || c == 'D'
}

/// One step of reading a decimal number: the state after `c` in state
/// `st` (0 start, 1 sign, 2 digits, 9 digits and `.`, 3 `.` alone,
/// 4 fraction, 5 exponent letter, 6 exponent sign, 7 exponent digits,
/// 8 not a number).
pub open spec fn float_step(st: int, c: char) -> int {
    if st == 0 {
        if sign_char(c) { 1 } else if is_digit(c) { 2 } else if c == '.' { 3 } else { 8 }
    } else if st == 1 {
        if is_digit(c) { 2 } else if c == '.' { 3 } else { 8 }
    } else if st == 2 {
        if is_digit(c) { 2 } else if c == '.' { 9 } else if exp_char(c) { 5 } else { 8 }
    } else if st == 3 {
        if is_digit(c) { 4 } else { 8 }
    } else if st == 9 || st == 4 {
        if is_digit(c) { 4 } else if exp_char(c) { 5 } else { 8 }
    } else if st == 5 {
        if sign_char(c) { 6 } else if is_digit(c) { 7 } else { 8 }
    } else if st == 6 || st == 7 {
        if is_digit(c) { 7 } else { 8 }
    } else {
        8
    }
}

/// The state after reading the first `n` characters of `s`.
pub open spec fn float_run(s: Seq<char>, n: int) -> int
    decreases n,
{
    if n <= 0 || n > s.len() { 0 } else { float_step(float_run(s, n - 1), s[n - 1]) }
}

/// `s` is the word spelled `w` in lower case and `u` in upper case, each
/// letter in either case.
pub open spec fn word_is(s: Seq<char>, w: Seq<char>, u: Seq<char>) -> bool {
    s.len() == w.len() && forall|i: int| 0 <= i < s.len() ==> (#[trigger] s[i] == w[i] || s[i] == u[i])
}

/// A signed `inf`, `infinity` or `nan`.
pub open spec fn special_float(t: Seq<char>) -> bool {
    let body = if t.len() > 0 && sign_char(t[0]) { t.drop_first() } else { t };
    word_is(body, seq!['i', 'n', 'f'], seq!['I', 'N', 'F'])
        || word_is(body, seq!['i', 'n', 'f', 'i', 'n', 'i', 't', 'y'], seq!['I', 'N', 'F', 'I', 'N', 'I', 'T', 'Y'])
        || word_is(body, seq!['n', 'a', 'n'], seq!['N', 'A', 'N'])
}

/// The text of a floating-point number (`f64::from_str`, with FITS's `D`
/// exponent read as `E`).
pub open spec fn float_text(t: Seq<char>) -> bool {
    special_float(t) || {
        let st = float_run(t, t.len() as int);
        st == 2 || st == 4 || st == 7 || st == 9
    }
}

/// `t[start..]` is the word spelled `w` in lower case and `u` in upper
/// case.
fn word_matches(t: &[char], start: usize, w: &[char], u: &[char]) -> (r: bool)
    requires
        start <= t@.len(),
        u@.len() == w@.len(),
    ensures
        r == word_is(t@.subrange(start as int, t@.len() as int), w@, u@),
{
    let n = t.len();
    if n - start != w.len() {
        return false;
    }
    let ghost s = t@.subrange(start as int, t@.len() as int);
    let mut i: usize = 0;
    while i < w.len()
        invariant
            i <= w@.len(),
            n == t@.len(),
            u@.len() == w@.len(),
            start + w@.len() == n,
            s == t@.subrange(start as int, t@.len() as int),
            forall|j: int| 0 <= j < i ==> (#[trigger] s[j] == w@[j] || s[j] == u@[j]),
        decreases w@.len() - i,
    {
        let c = t[start + i];
        assert(s[i as int] == c);
        if !(c == w[i] || c == u[i]) {
            return false;
        }
        i += 1;
    }
    true
}

/// Whether `t` is the text of a floating-point number.
fn float_text_exec(t: &[char]) -> (r: bool)
    ensures
        r == float_text(t@),
{
    let start: usize = if t.len() > 0 && (t[0] == '+' || t[0] == '-') { 1 } else { 0 };
    assert(t@.subrange(start as int, t@.len() as int) =~= (if t@.len() > 0 && sign_char(t@[0]) { t@.drop_first() } else { t@ }));
    let inf = ['i', 'n', 'f'];
    let infinity = ['i', 'n', 'f', 'i', 'n', 'i', 't', 'y'];
    let nan = ['n', 'a', 'n'];
    let inf_u = ['I', 'N', 'F'];
    let infinity_u = ['I', 'N', 'F', 'I', 'N', 'I', 'T', 'Y'];
    let nan_u = ['N', 'A', 'N'];
    assert(inf@ =~= seq!['i', 'n', 'f']);
    assert(infinity@ =~= seq!['i', 'n', 'f', 'i', 'n', 'i', 't', 'y']);
    assert(nan@ =~= seq!['n', 'a', 'n']);
    assert(inf_u@ =~= seq!['I', 'N', 'F']);
    assert(infinity_u@ =~= seq!['I', 'N', 'F', 'I', 'N', 'I', 'T', 'Y']);
    assert(nan_u@ =~= seq!['N', 'A', 'N']);
    if word_matches(t, start, &inf, &inf_u) || word_matches(t, start, &infinity, &infinity_u)
        || word_matches(t, start, &nan, &nan_u) {
        return true;
    }
    let mut st: u8 = 0;
    let mut i: usize = 0;
    while i < t.len()
        invariant
            i <= t@.len(),
            st as int == float_run(t@, i as int),
            st <= 9,
        decreases t@.len() - i,
    {
        let c = t[i];
        let digit = '0' <= c && c <= '9';
        let sign = c == '+' || c == '-';
        let exp = c == 'e' || c == 'E' || c == 'd' || c == 'D';
        st = if st == 0 {
            if sign { 1 } else if digit { 2 } else if c == '.' { 3 } else { 8 }
        } else if st == 1 {
            if digit { 2 } else if c == '.' { 3 } else { 8 }
        } else if st == 2 {
            if digit { 2 } else if c == '.' { 9 } else if exp { 5 } else { 8 }
        } else if st == 3 {
            if digit { 4 } else { 8 }
        } else if st == 9 || st == 4 {
            if digit { 4 } else if exp { 5 } else { 8 }
        } else if st == 5 {
            if sign { 6 } else if digit { 7 } else { 8 }
        } else if st == 6 || st == 7 {
            if digit { 7 } else { 8 }
        } else {
            8
        };
        i += 1;
    }
    st == 2 || st == 4 || st == 7 || st == 9
}

/// The value of one field of format `f` from its bytes: a character field's
/// text without trailing spaces, an integer, or a number's trimmed text;
/// bytes that are not UTF-8, or text that is not a number of the format,
/// give `InvalidValue`.
pub open spec fn spec_ascii_field(b: Seq<u8>, f: AsciiColumnFormat) -> core::result::Result<AsciiColumnValues, Error> {
    if !valid_utf8(b) {
        Err(Error::InvalidValue)
    } else {
        let s = decode_utf8(b);
        match f {
            AsciiColumnFormat::Character(_) => Ok(AsciiColumnValues::Character(seq![trim_end(s)])),
            AsciiColumnFormat::Integer(_) => match spec_parse_i64(trim(s)) {
                Some(n) => Ok(AsciiColumnValues::Integer(seq![n])),
                None => Err(Error::InvalidValue),
            },
            _ => if float_text(trim(s)) {
                Ok(AsciiColumnValues::Float(seq![trim(s)]))
            } else {
                Err(Error::InvalidValue)
            },
        }
    }
}

/// Read one field of format `fmt` from its bytes.
fn parse_ascii_field(bytes: &[u8], fmt: &AsciiColumnFormat) -> (r: Result<AsciiColumnData>)
    ensures
        r matches Ok(d) ==> spec_ascii_field(bytes@, *fmt) == Ok::<AsciiColumnValues, Error>(d@),
        r matches Err(e) ==> spec_ascii_field(bytes@, *fmt) == Err::<AsciiColumnValues, Error>(e),
{
    let s = match str_from_utf8(bytes) {
        Some(s) => s,
        None => return Err(Error::InvalidValue),
    };
    let cs = chars_of(s);
    assert(cs@.subrange(0, cs@.len() as int) =~= cs@);
    match fmt {
        AsciiColumnFormat::Character(_) => {
            let e = trim_end_index(cs.as_slice(), cs.len());
            let t = string_from_chars(vstd::slice::slice_subrange(cs.as_slice(), 0, e));
            let v = vec![t];
            let d = AsciiColumnData::Character(v);
            assert(d@ == AsciiColumnValues::Character(seq![trim_end(s@)])) by {
                assert(Seq::new(v@.len(), |i: int| v@[i]@) =~= seq![trim_end(s@)]);
            }
            Ok(d)
        },
        AsciiColumnFormat::Integer(_) => {
            let (b, e) = trim_bounds(cs.as_slice(), 0, cs.len());
            match parse_i64_chars(cs.as_slice(), b, e) {
                Some(n) => {
                    let v = vec![n];
                    assert(v@ =~= seq![n]);
                    Ok(AsciiColumnData::Integer(v))
                },
                None => Err(Error::InvalidValue),
            }
        },
        _ => {
            let (b, e) = trim_bounds(cs.as_slice(), 0, cs.len());
            let t = vstd::slice::slice_subrange(cs.as_slice(), b, e);
            if float_text_exec(t) {
                let v = vec![string_from_chars(t)];
                let d = AsciiColumnData::Float(v);
                assert(d@ == AsciiColumnValues::Float(seq![trim(s@)])) by {
                    assert(Seq::new(v@.len(), |i: int| v@[i]@) =~= seq![trim(s@)]);
                }
                Ok(d)
            } else {
                Err(Error::InvalidValue)
            }
        },
    }
}

/// A column of format `f` with no rows.
pub open spec fn no_values(f: AsciiColumnFormat) -> AsciiColumnValues {
    match f {
        AsciiColumnFormat::Character(_) => AsciiColumnValues::Character(Seq::empty()),
        AsciiColumnFormat::Integer(_) => AsciiColumnValues::Integer(Seq::empty()),
        _ => AsciiColumnValues::Float(Seq::empty()),
    }
}

/// The values of `a` followed by those of `b`, of the same kind.
pub open spec fn join_values(a: AsciiColumnValues, b: AsciiColumnValues) -> AsciiColumnValues {
    match (a, b) {
        (AsciiColumnValues::Character(x), AsciiColumnValues::Character(y)) => AsciiColumnValues::Character(x + y),
        (AsciiColumnValues::Integer(x), AsciiColumnValues::Integer(y)) => AsciiColumnValues::Integer(x + y),
        (AsciiColumnValues::Float(x), AsciiColumnValues::Float(y)) => AsciiColumnValues::Float(x + y),
        _ => a,
    }
}

/// The fields of column `col` in rows `0..k`, the row `row` starting at
/// `start + row * naxis1`; a field past the data is `UnexpectedEof`, and
/// the first field that does not read gives its error.
pub open spec fn spec_ascii_cells(data: Seq<u8>, start: int, naxis1: int, col: AsciiColumnModel, k: nat)
    -> core::result::Result<AsciiColumnValues, Error>
    decreases k,
{
    if k == 0 {
        Ok(no_values(col.format))
    } else {
        match spec_ascii_cells(data, start, naxis1, col, (k - 1) as nat) {
            Err(e) => Err(e),
            Ok(v) => {
                let off = start + (k - 1) * naxis1 + col.tbcol;
                let end = off + format_width(col.format);
                if end > data.len() {
                    Err(Error::UnexpectedEof)
                } else {
                    match spec_ascii_field(data.subrange(off, end), col.format) {
                        Err(e) => Err(e),
                        Ok(x) => Ok(join_values(v, x)),
                    }
                }
            },
        }
    }
}

/// The values of column `col_index` of an ASCII table HDU.
pub open spec fn spec_read_ascii_column(data: Seq<u8>, hdu: HduModel, col_index: int)
    -> core::result::Result<AsciiColumnValues, Error> {
    match hdu.info {
        HduInfoModel::AsciiTable { naxis1, naxis2, tfields } => if col_index >= tfields {
            Err(Error::InvalidValue)
        } else {
            match spec_ascii_columns(hdu.cards, tfields as nat) {
                Err(e) => Err(e),
                Ok(cols) => if hdu.data_start + naxis1 * naxis2 > data.len() {
                    Err(Error::UnexpectedEof)
                } else {
                    spec_ascii_cells(data, hdu.data_start, naxis1 as int, cols[col_index], naxis2 as nat)
                },
            }
        },
        _ => Err(Error::InvalidHeader),
    }
}

/// The fields of columns `0..k` of the row starting at `row_start`.
pub open spec fn spec_ascii_row_fields(data: Seq<u8>, row_start: int, cols: Seq<AsciiColumnModel>, k: nat)
    -> core::result::Result<Seq<AsciiColumnValues>, Error>
    decreases k,
{
    if k == 0 {
        Ok(Seq::empty())
    } else {
        match spec_ascii_row_fields(data, row_start, cols, (k - 1) as nat) {
            Err(e) => Err(e),
            Ok(v) => {
                let off = row_start + cols[k - 1].tbcol;
                let end = off + format_width(cols[k - 1].format);
                if end > data.len() {
                    Err(Error::UnexpectedEof)
                } else {
                    match spec_ascii_field(data.subrange(off, end), cols[k - 1].format) {
                        Err(e) => Err(e),
                        Ok(x) => Ok(v.push(x)),
                    }
                }
            },
        }
    }
}

/// The fields of row `row_index` of an ASCII table HDU, one one-value
/// column data per column.
pub open spec fn spec_read_ascii_row(data: Seq<u8>, hdu: HduModel, row_index: int)
    -> core::result::Result<Seq<AsciiColumnValues>, Error> {
    match hdu.info {
        HduInfoModel::AsciiTable { naxis1, naxis2, tfields } => if row_index >= naxis2 {
            Err(Error::InvalidValue)
        } else {
            match spec_ascii_columns(hdu.cards, tfields as nat) {
                Err(e) => Err(e),
                Ok(cols) => if hdu.data_start + naxis1 * naxis2 > data.len() {
                    Err(Error::UnexpectedEof)
                } else {
                    spec_ascii_row_fields(data, hdu.data_start + row_index * naxis1, cols, cols.len())
                },
            }
        },
        _ => Err(Error::InvalidHeader),
    }
}

/// The fields of a column of a table with `naxis1 * naxis2` bytes of data
/// from `data_start` are addressable.
pub open spec fn ascii_field_fits(data_start: int, naxis1: int, naxis2: int, col: AsciiColumnModel) -> bool {
    data_start + naxis1 * naxis2 + col.tbcol + format_width(col.format) <= usize::MAX
}

/// The fields of every column are addressable.
pub open spec fn all_fields_fit(data_start: int, naxis1: int, naxis2: int, cols: Seq<AsciiColumnModel>) -> bool {
    forall|k: int| 0 <= k < cols.len() ==> ascii_field_fits(data_start, naxis1, naxis2, #[trigger] cols[k])
}

/// Reading column `col_index` of an ASCII table HDU neither overflows nor
/// meets a TFORM value it cannot cut.
pub open spec fn ascii_column_readable(data_len: int, hdu: HduModel, col_index: int) -> bool {
    match hdu.info {
        HduInfoModel::AsciiTable { naxis1, naxis2, tfields } => {
            &&& ascii_tforms_sliceable(hdu.cards, tfields as nat)
            &&& hdu.data_start + naxis1 * naxis2 <= usize::MAX
            &&& match spec_ascii_columns(hdu.cards, tfields as nat) {
                Ok(cols) => 0 <= col_index < cols.len() ==> ascii_field_fits(hdu.data_start, naxis1 as int, naxis2 as int, cols[col_index]),
                Err(_) => true,
            }
        },
        _ => true,
    }
}

/// Reading a row of an ASCII table HDU neither overflows nor meets a TFORM
/// value it cannot cut.
pub open spec fn ascii_table_readable(data_len: int, hdu: HduModel) -> bool {
    match hdu.info {
        HduInfoModel::AsciiTable { naxis1, naxis2, tfields } => {
            &&& ascii_tforms_sliceable(hdu.cards, tfields as nat)
            &&& hdu.data_start + naxis1 * naxis2 <= usize::MAX
            &&& match spec_ascii_columns(hdu.cards, tfields as nat) {
                Ok(cols) => all_fields_fit(hdu.data_start, naxis1 as int, naxis2 as int, cols),
                Err(_) => true,
            }
        },
        _ => true,
    }
}

proof fn lemma_ascii_columns_len(cards: Seq<CardModel>, k: nat)
    ensures
        spec_ascii_columns(cards, k) matches Ok(cols) ==> cols.len() == k,
    decreases k,
{
    if k > 0 {
        lemma_ascii_columns_len(cards, (k - 1) as nat);
    }
}

proof fn lemma_ascii_cells_err(data: Seq<u8>, start: int, naxis1: int, col: AsciiColumnModel, m: nat, n: nat)
    requires
        m <= n,
        spec_ascii_cells(data, start, naxis1, col, m) is Err,
    ensures
        spec_ascii_cells(data, start, naxis1, col, n) == spec_ascii_cells(data, start, naxis1, col, m),
    decreases n - m,
{
    if m < n {
        lemma_ascii_cells_err(data, start, naxis1, col, m, (n - 1) as nat);
    }
}

proof fn lemma_ascii_row_err(data: Seq<u8>, row_start: int, cols: Seq<AsciiColumnModel>, m: nat, n: nat)
    requires
        m <= n,
        spec_ascii_row_fields(data, row_start, cols, m) is Err,
    ensures
        spec_ascii_row_fields(data, row_start, cols, n) == spec_ascii_row_fields(data, row_start, cols, m),
    decreases n - m,
{
    if m < n {
        lemma_ascii_row_err(data, row_start, cols, m, (n - 1) as nat);
    }
}

/// No values of the kind format `fmt` reads.
fn no_values_exec(fmt: &AsciiColumnFormat) -> (r: AsciiColumnData)
    ensures
        r@ == no_values(*fmt),
{
    match fmt {
        AsciiColumnFormat::Character(_) => {
            let v: Vec<String> = Vec::new();
            assert(Seq::new(v@.len(), |i: int| v@[i]@) =~= Seq::<Seq<char>>::empty());
            AsciiColumnData::Character(v)
        },
        AsciiColumnFormat::Integer(_) => AsciiColumnData::Integer(Vec::new()),
        _ => {
            let v: Vec<String> = Vec::new();
            assert(Seq::new(v@.len(), |i: int| v@[i]@) =~= Seq::<Seq<char>>::empty());
            AsciiColumnData::Float(v)
        },
    }
}

/// The values of `a` followed by those of `b`.
fn join_data(a: AsciiColumnData, b: AsciiColumnData) -> (r: AsciiColumnData)
    ensures
        r@ == join_values(a@, b@),
{
    match (a, b) {
        (AsciiColumnData::Character(mut x), AsciiColumnData::Character(mut y)) => {
            let ghost xv = Seq::new(x@.len(), |i: int| x@[i]@);
            let ghost yv = Seq::new(y@.len(), |i: int| y@[i]@);
            x.append(&mut y);
            assert(Seq::new(x@.len(), |i: int| x@[i]@) =~= xv + yv);
            AsciiColumnData::Character(x)
        },
        (AsciiColumnData::Integer(mut x), AsciiColumnData::Integer(mut y)) => {
            x.append(&mut y);
            AsciiColumnData::Integer(x)
        },
        (AsciiColumnData::Float(mut x), AsciiColumnData::Float(mut y)) => {
            let ghost xv = Seq::new(x@.len(), |i: int| x@[i]@);
            let ghost yv = Seq::new(y@.len(), |i: int| y@[i]@);
            x.append(&mut y);
            assert(Seq::new(x@.len(), |i: int| x@[i]@) =~= xv + yv);
            AsciiColumnData::Float(x)
        },
        (a, _) => a,
    }
}

/// The fields of column `col` over `rows` rows from `start` on.
fn read_ascii_cells(data: &[u8], start: usize, naxis1: usize, rows: usize, col: &AsciiColumnDescriptor)
    -> (r: Result<AsciiColumnData>)
    requires
        start + naxis1 * rows + col.tbcol + format_width(col.format) <= usize::MAX,
    ensures
        r matches Ok(d) ==> spec_ascii_cells(data@, start as int, naxis1 as int, col@, rows as nat) == Ok::<AsciiColumnValues, Error>(d@),
        r matches Err(e) ==> spec_ascii_cells(data@, start as int, naxis1 as int, col@, rows as nat) == Err::<AsciiColumnValues, Error>(e),
{
    let dlen = data.len();
    let w = col.format.width();
    let mut acc = no_values_exec(&col.format);
    let mut row: usize = 0;
    while row < rows
        invariant
            row <= rows,
            dlen == data@.len(),
            w == format_width(col.format),
            start + naxis1 * rows + col.tbcol + w <= usize::MAX,
            spec_ascii_cells(data@, start as int, naxis1 as int, col@, row as nat) == Ok::<AsciiColumnValues, Error>(acc@),
        decreases rows - row,
    {
        proof {
            assert(row * naxis1 <= naxis1 * rows) by (nonlinear_arith)
                requires row < rows, naxis1 >= 0;
        }
        let off = start + row * naxis1 + col.tbcol;
        if off + w > dlen {
            proof { lemma_ascii_cells_err(data@, start as int, naxis1 as int, col@, (row + 1) as nat, rows as nat); }
            return Err(Error::UnexpectedEof);
        }
        let field = match parse_ascii_field(vstd::slice::slice_subrange(data, off, off + w), &col.format) {
            Ok(f) => f,
            Err(e) => {
                proof { lemma_ascii_cells_err(data@, start as int, naxis1 as int, col@, (row + 1) as nat, rows as nat); }
                return Err(e);
            },
        };
        acc = join_data(acc, field);
        row += 1;
    }
    Ok(acc)
}

/// Read a single column from all rows of an ASCII table HDU.
///
/// `fits_data` is the entire FITS byte stream. The HDU must describe an
/// `AsciiTable`. `col_index` is 0-based.
pub fn read_ascii_column(fits_data: &[u8], hdu: &Hdu, col_index: usize) -> (r: Result<AsciiColumnData>)
    requires
        ascii_column_readable(fits_data@.len() as int, hdu@, col_index as int),
    ensures
        r matches Ok(d) ==> spec_read_ascii_column(fits_data@, hdu@, col_index as int) == Ok::<AsciiColumnValues, Error>(d@),
        r matches Err(e) ==> spec_read_ascii_column(fits_data@, hdu@, col_index as int) == Err::<AsciiColumnValues, Error>(e),
{
    let dlen = fits_data.len();
    let (naxis1, naxis2, tfields) = match &hdu.info {
        HduInfo::AsciiTable { naxis1, naxis2, tfields } => (*naxis1, *naxis2, *tfields),
        _ => return Err(Error::InvalidHeader),
    };
    if col_index >= tfields {
        return Err(Error::InvalidValue);
    }
    let columns = parse_ascii_table_columns(hdu.cards.as_slice(), tfields)?;
    proof {
        lemma_ascii_columns_len(cards_view(hdu.cards@), tfields as nat);
        assert(ascii_columns_view(columns@)[col_index as int] == columns@[col_index as int]@);
    }
    if hdu.data_start + naxis1 * naxis2 > dlen {
        return Err(Error::UnexpectedEof);
    }
    read_ascii_cells(fits_data, hdu.data_start, naxis1, naxis2, &columns[col_index])
}

/// Read all columns for a single row of an ASCII table HDU.
///
/// `fits_data` is the entire FITS byte stream. `row_index` is 0-based.
pub fn read_ascii_row(fits_data: &[u8], hdu: &Hdu, row_index: usize) -> (r: Result<Vec<AsciiColumnData>>)
    requires
        ascii_table_readable(fits_data@.len() as int, hdu@),
    ensures
        r matches Ok(v) ==> spec_read_ascii_row(fits_data@, hdu@, row_index as int)
            == Ok::<Seq<AsciiColumnValues>, Error>(Seq::new(v@.len(), |i: int| v@[i]@)),
        r matches Err(e) ==> spec_read_ascii_row(fits_data@, hdu@, row_index as int) == Err::<Seq<AsciiColumnValues>, Error>(e),
{
    let dlen = fits_data.len();
    let (naxis1, naxis2, tfields) = match &hdu.info {
        HduInfo::AsciiTable { naxis1, naxis2, tfields } => (*naxis1, *naxis2, *tfields),
        _ => return Err(Error::InvalidHeader),
    };
    if row_index >= naxis2 {
        return Err(Error::InvalidValue);
    }
    let columns = parse_ascii_table_columns(hdu.cards.as_slice(), tfields)?;
    let ghost cv = ascii_columns_view(columns@);
    if hdu.data_start + naxis1 * naxis2 > dlen {
        return Err(Error::UnexpectedEof);
    }
    proof {
        assert(row_index * naxis1 <= naxis1 * naxis2) by (nonlinear_arith)
            requires row_index < naxis2, naxis1 >= 0;
    }
    let row_start = hdu.data_start + row_index * naxis1;
    let mut out: Vec<AsciiColumnData> = Vec::new();
    assert(Seq::new(out@.len(), |i: int| out@[i]@) =~= Seq::<AsciiColumnValues>::empty());
    assert(spec_read_ascii_row(fits_data@, hdu@, row_index as int)
        == spec_ascii_row_fields(fits_data@, row_start as int, cv, cv.len()));
    let mut k: usize = 0;
    while k < columns.len()
        invariant
            k <= columns@.len(),
            dlen == fits_data@.len(),
            cv == ascii_columns_view(columns@),
            cv.len() == columns@.len(),
            spec_read_ascii_row(fits_data@, hdu@, row_index as int)
                == spec_ascii_row_fields(fits_data@, row_start as int, cv, cv.len()),
            row_start <= hdu.data_start + naxis1 * naxis2,
            forall|j: int| 0 <= j < cv.len() ==> ascii_field_fits(hdu.data_start as int, naxis1 as int, naxis2 as int, #[trigger] cv[j]),
            spec_ascii_row_fields(fits_data@, row_start as int, cv, k as nat)
                == Ok::<Seq<AsciiColumnValues>, Error>(Seq::new(out@.len(), |i: int| out@[i]@)),
        decreases columns@.len() - k,
    {
        let col = &columns[k];
        assert(cv[k as int] == col@);
        assert(ascii_field_fits(hdu.data_start as int, naxis1 as int, naxis2 as int, cv[k as int]));
        let w = col.format.width();
        let off = row_start + col.tbcol;
        if off + w > dlen {
            proof { lemma_ascii_row_err(fits_data@, row_start as int, cv, (k + 1) as nat, columns@.len() as nat); }
            return Err(Error::UnexpectedEof);
        }
        let field = match parse_ascii_field(vstd::slice::slice_subrange(fits_data, off, off + w), &col.format) {
            Ok(f) => f,
            Err(e) => {
                proof { lemma_ascii_row_err(fits_data@, row_start as int, cv, (k + 1) as nat, columns@.len() as nat); }
                return Err(e);
            },
        };
        let ghost before = Seq::new(out@.len(), |i: int| out@[i]@);
        out.push(field);
        assert(Seq::new(out@.len(), |i: int| out@[i]@) =~= before.push(field@));
        k += 1;
    }
    Ok(out)
}

/// Whether a TFORM value of an ASCII table can be cut after its first
/// character.
fn tform_ascii_sliceable_exec(s: &str) -> (b: bool)
    ensures
        b == tform_ascii_sliceable(s@),
{
    let cs = chars_of(s);
    let (b, e) = trim_bounds(cs.as_slice(), 0, cs.len());
    assert(cs@.subrange(0, cs@.len() as int) =~= cs@);
    if b == e {
        return true;
    }
    assert(trim(s@)[0] == cs@[b as int]);
    (cs[b] as u32) < 128
}

/// Whether every TFORMn value, `n` from 1 to `tfields`, of an ASCII table
/// can be cut after its first character.
fn ascii_tforms_sliceable_exec(cards: &[Card], tfields: usize) -> (b: bool)
    ensures
        b == ascii_tforms_sliceable(cards_view(cards@), tfields as nat),
{
    let tform: [u8; 5] = [84u8, 70u8, 79u8, 82u8, 77u8];
    assert(tform@ == tform_name());
    let ghost cv = cards_view(cards@);
    let mut n: usize = 0;
    while n < tfields
        invariant
            n <= tfields,
            tform@ == tform_name(),
            cv == cards_view(cards@),
            forall|m: nat| 1 <= m <= n ==> (#[trigger] numbered_str(cv, tform_name(), m) matches Some(tf) ==> tform_ascii_sliceable(tf)),
        decreases tfields - n,
    {
        n += 1;
        match numbered_string_value(cards, &tform, n) {
            Some(tf) => {
                if !tform_ascii_sliceable_exec(tf.as_str()) {
                    return false;
                }
            },
            None => {},
        }
    }
    true
}

/// Whether `data_start + naxis1 * naxis2 + tbcol + width` fits in a `usize`.
fn field_fits_exec(data_start: usize, body: usize, col: &AsciiColumnDescriptor) -> (b: bool)
    ensures
        b == (data_start + body + col.tbcol + format_width(col.format) <= usize::MAX),
{
    match data_start.checked_add(body) {
        Some(x) => match x.checked_add(col.tbcol) {
            Some(y) => y.checked_add(col.format.width()).is_some(),
            None => false,
        },
        None => false,
    }
}

/// Whether column `col_index` of an ASCII table HDU can be read: see
/// [`ascii_column_readable`].
pub fn ascii_column_readable_exec(fits_data: &[u8], hdu: &Hdu, col_index: usize) -> (b: bool)
    ensures
        b == ascii_column_readable(fits_data@.len() as int, hdu@, col_index as int),
{
    match &hdu.info {
        HduInfo::AsciiTable { naxis1, naxis2, tfields } => {
            if !ascii_tforms_sliceable_exec(hdu.cards.as_slice(), *tfields) {
                return false;
            }
            let body = match naxis1.checked_mul(*naxis2) {
                Some(b) => b,
                None => {
                    proof {
                        assert(*naxis1 * *naxis2 >= 0) by (nonlinear_arith);
                    }
                    return false;
                },
            };
            if hdu.data_start.checked_add(body).is_none() {
                return false;
            }
            match parse_ascii_table_columns(hdu.cards.as_slice(), *tfields) {
                Ok(cols) => {
                    if col_index >= cols.len() {
                        return true;
                    }
                    assert(ascii_columns_view(cols@)[col_index as int] == cols@[col_index as int]@);
                    field_fits_exec(hdu.data_start, body, &cols[col_index])
                },
                Err(_) => true,
            }
        },
        _ => true,
    }
}

/// Whether the rows of an ASCII table HDU can be read: see
/// [`ascii_table_readable`].
pub fn ascii_table_readable_exec(fits_data: &[u8], hdu: &Hdu) -> (b: bool)
    ensures
        b == ascii_table_readable(fits_data@.len() as int, hdu@),
{
    match &hdu.info {
        HduInfo::AsciiTable { naxis1, naxis2, tfields } => {
            if !ascii_tforms_sliceable_exec(hdu.cards.as_slice(), *tfields) {
                return false;
            }
            let body = match naxis1.checked_mul(*naxis2) {
                Some(b) => b,
                None => {
                    proof {
                        assert(*naxis1 * *naxis2 >= 0) by (nonlinear_arith);
                    }
                    return false;
                },
            };
            if hdu.data_start.checked_add(body).is_none() {
                return false;
            }
            match parse_ascii_table_columns(hdu.cards.as_slice(), *tfields) {
                Ok(cols) => {
                    let ghost cv = ascii_columns_view(cols@);
                    assert(ascii_tforms_sliceable(hdu@.cards, *tfields as nat));
                    assert(hdu@.data_start + *naxis1 * *naxis2 <= usize::MAX);
                    assert(spec_ascii_columns(hdu@.cards, *tfields as nat) == Ok::<Seq<AsciiColumnModel>, Error>(cv));
                    assert(ascii_table_readable(fits_data@.len() as int, hdu@)
                        == all_fields_fit(hdu.data_start as int, *naxis1 as int, *naxis2 as int, cv));
                    let mut k: usize = 0;
                    while k < cols.len()
                        invariant
                            k <= cols@.len(),
                            cv == ascii_columns_view(cols@),
                            ascii_table_readable(fits_data@.len() as int, hdu@)
                                == all_fields_fit(hdu.data_start as int, *naxis1 as int, *naxis2 as int, cv),
                            body == *naxis1 * *naxis2,
                            forall|j: int| 0 <= j < k ==> ascii_field_fits(hdu.data_start as int, *naxis1 as int, *naxis2 as int, #[trigger] cv[j]),
                        decreases cols@.len() - k,
                    {
                        assert(cv[k as int] == cols@[k as int]@);
                        if !field_fits_exec(hdu.data_start, body, &cols[k]) {
                            assert(!ascii_field_fits(hdu.data_start as int, *naxis1 as int, *naxis2 as int, cv[k as int]));
                            return false;
                        }
                        k += 1;
                    }
                    true
                },
                Err(_) => true,
            }
        },
        _ => true,
    }
}

/// `n` spaces.
pub open spec fn space_chars(n: nat) -> Seq<char> {
    Seq::new(n, |i: int| ' ')
}

/// Text left-aligned in a field of `w` bytes: cut to its first `w` bytes,
/// or followed by spaces.
pub open spec fn pad_right_text(s: Seq<char>, w: nat) -> Seq<char> {
    let b = encode_utf8(s);
    if b.len() >= w {
        decode_utf8(b.subrange(0, w as int))
    } else {
        s + space_chars((w - b.len()) as nat)
    }
}

/// Text right-aligned in a field of `w` bytes: cut to its last `w` bytes,
/// or after spaces.
pub open spec fn right_justify_text(s: Seq<char>, w: nat) -> Seq<char> {
    let b = encode_utf8(s);
    if b.len() >= w {
        decode_utf8(b.subrange(b.len() - w, b.len() as int))
    } else {
        space_chars((w - b.len()) as nat) + s
    }
}

/// The number of values a column's data holds.
pub open spec fn values_count(v: AsciiColumnValues) -> nat {
    match v {
        AsciiColumnValues::Character(x) => x.len(),
        AsciiColumnValues::Integer(x) => x.len(),
        AsciiColumnValues::Float(x) => x.len(),
    }
}

/// Field `index` of column data `value` in format `fmt`: text padded on
/// the right, an integer's decimal digits right-aligned, a number's text
/// right-aligned; data of another kind than the format, or no value at
/// `index`, is `InvalidValue`.
pub open spec fn spec_format_ascii_field(value: AsciiColumnValues, fmt: AsciiColumnFormat, index: int)
    -> core::result::Result<Seq<char>, Error> {
    if !(0 <= index < values_count(value)) {
        match (value, fmt) {
            (AsciiColumnValues::Character(_), AsciiColumnFormat::Character(_)) => Err(Error::InvalidValue),
            (AsciiColumnValues::Integer(_), AsciiColumnFormat::Integer(_)) => Err(Error::InvalidValue),
            _ => Err(Error::InvalidValue),
        }
    } else {
        match (value, fmt) {
            (AsciiColumnValues::Character(v), AsciiColumnFormat::Character(w)) => Ok(pad_right_text(v[index], w as nat)),
            (AsciiColumnValues::Integer(v), AsciiColumnFormat::Integer(w)) =>
                Ok(right_justify_text(ascii_chars(crate::text::int_decimal(v[index] as int)), w as nat)),
            (AsciiColumnValues::Float(v), AsciiColumnFormat::FloatF(w, _)) => Ok(right_justify_text(v[index], w as nat)),
            (AsciiColumnValues::Float(v), AsciiColumnFormat::FloatE(w, _)) => Ok(right_justify_text(v[index], w as nat)),
            (AsciiColumnValues::Float(v), AsciiColumnFormat::DoubleE(w, _)) => Ok(right_justify_text(v[index], w as nat)),
            _ => Err(Error::InvalidValue),
        }
    }
}

/// Cutting field `index` of `value` to its format's width falls between
/// characters.
pub open spec fn field_formattable(value: AsciiColumnValues, fmt: AsciiColumnFormat, index: int) -> bool {
    0 <= index < values_count(value) ==> {
        let w = format_width(fmt) as int;
        match value {
            AsciiColumnValues::Character(v) => {
                let b = encode_utf8(v[index]);
                b.len() >= w ==> valid_utf8(b.subrange(0, w))
            },
            AsciiColumnValues::Float(v) => {
                let b = encode_utf8(v[index]);
                b.len() >= w ==> valid_utf8(b.subrange(b.len() - w, b.len() as int))
            },
            AsciiColumnValues::Integer(_) => true,
        }
    }
}

/// A string of `n` spaces.
fn spaces_string(n: usize) -> (r: String)
    ensures
        r@ == space_chars(n as nat),
{
    let mut cs: Vec<char> = Vec::new();
    let mut i: usize = 0;
    while i < n
        invariant
            i <= n,
            cs@ == space_chars(i as nat),
        decreases n - i,
    {
        cs.push(' ');
        i += 1;
        assert(cs@ =~= space_chars(i as nat));
    }
    string_from_chars(cs.as_slice())
}

/// Text left-aligned in a field of `width` bytes.
fn pad_or_truncate_left(s: &str, width: usize) -> (r: String)
    requires
        encode_utf8(s@).len() >= width ==> valid_utf8(encode_utf8(s@).subrange(0, width as int)),
    ensures
        r@ == pad_right_text(s@, width as nat),
{
    let b = s.as_bytes();
    if b.len() >= width {
        match str_from_utf8(vstd::slice::slice_subrange(b, 0, width)) {
            Some(t) => t.to_owned(),
            None => {
                assert(false);
                String::new()
            },
        }
    } else {
        let mut out = s.to_owned();
        let pad = spaces_string(width - b.len());
        out.append(pad.as_str());
        out
    }
}

/// Text right-aligned in a field of `width` bytes.
fn right_justify(s: &str, width: usize) -> (r: String)
    requires
        encode_utf8(s@).len() >= width ==> valid_utf8(encode_utf8(s@).subrange(encode_utf8(s@).len() - width, encode_utf8(s@).len() as int)),
    ensures
        r@ == right_justify_text(s@, width as nat),
{
    let b = s.as_bytes();
    let n = b.len();
    if n >= width {
        match str_from_utf8(vstd::slice::slice_subrange(b, n - width, n)) {
            Some(t) => t.to_owned(),
            None => {
                assert(false);
                String::new()
            },
        }
    } else {
        let mut out = spaces_string(width - n);
        out.append(s);
        out
    }
}

/// The text of an integer, in decimal.
fn integer_text(n: i64) -> (r: String)
    ensures
        r@ == ascii_chars(crate::text::int_decimal(n as int)),
{
    string_from_bytes(crate::text::i64_decimal(n).as_slice())
}

/// Decimal digits are ASCII, so any cut of them falls between characters.
proof fn lemma_ascii_text_cut(t: Seq<u8>, w: int)
    requires
        forall|i: int| 0 <= i < t.len() ==> #[trigger] t[i] < 128,
        0 <= w <= t.len(),
    ensures
        encode_utf8(ascii_chars(t)) == t,
        valid_utf8(t.subrange(t.len() - w, t.len() as int)),
{
    vstd::utf8::is_ascii_chars_encode_utf8(ascii_chars(t));
    assert(vstd::utf8::is_ascii_chars(ascii_chars(t)));
    assert(encode_utf8(ascii_chars(t)) =~= t);
    let u = t.subrange(t.len() - w, t.len() as int);
    assert(ascii_chars(u).len() == u.len());
    vstd::utf8::is_ascii_chars_encode_utf8(ascii_chars(u));
    assert(encode_utf8(ascii_chars(u)) =~= u);
    vstd::utf8::encode_utf8_valid_utf8(ascii_chars(u));
}

/// Format a single value from a column data vector according to its column
/// format. `index` selects which element of the data vector to format.
pub fn format_ascii_field(value: &AsciiColumnData, fmt: &AsciiColumnFormat, index: usize) -> (r: Result<String>)
    requires
        field_formattable(value@, *fmt, index as int),
    ensures
        r matches Ok(t) ==> spec_format_ascii_field(value@, *fmt, index as int) == Ok::<Seq<char>, Error>(t@),
        r matches Err(e) ==> spec_format_ascii_field(value@, *fmt, index as int) == Err::<Seq<char>, Error>(e),
{
    let w = fmt.width();
    match (value, fmt) {
        (AsciiColumnData::Character(vals), AsciiColumnFormat::Character(_)) => {
            if index >= vals.len() {
                return Err(Error::InvalidValue);
            }
            assert(vals@[index as int]@ == Seq::new(vals@.len(), |i: int| vals@[i]@)[index as int]);
            Ok(pad_or_truncate_left(vals[index].as_str(), w))
        },
        (AsciiColumnData::Integer(vals), AsciiColumnFormat::Integer(_)) => {
            if index >= vals.len() {
                return Err(Error::InvalidValue);
            }
            let digits = crate::text::i64_decimal(vals[index]);
            proof {
                crate::text::lemma_i64_decimal(vals@[index as int]);
                assert forall|i: int| 0 <= i < digits@.len() implies #[trigger] digits@[i] < 128 by {}
                if digits@.len() >= w {
                    lemma_ascii_text_cut(digits@, w as int);
                } else {
                    lemma_ascii_text_cut(digits@, 0);
                }
            }
            let t = integer_text(vals[index]);
            Ok(right_justify(t.as_str(), w))
        },
        (AsciiColumnData::Float(vals), AsciiColumnFormat::FloatF(_, _))
        | (AsciiColumnData::Float(vals), AsciiColumnFormat::FloatE(_, _))
        | (AsciiColumnData::Float(vals), AsciiColumnFormat::DoubleE(_, _)) => {
            if index >= vals.len() {
                return Err(Error::InvalidValue);
            }
            assert(vals@[index as int]@ == Seq::new(vals@.len(), |i: int| vals@[i]@)[index as int]);
            Ok(right_justify(vals[index].as_str(), w))
        },
        _ => {
            Err(Error::InvalidValue)
        },
    }
}

/// The views of column data.
pub open spec fn ascii_data_view(data: Seq<AsciiColumnData>) -> Seq<AsciiColumnValues> {
    Seq::new(data.len(), |i: int| data[i]@)
}

/// The number of rows that column data gives a table: that of its first
/// column.
pub open spec fn ascii_data_rows(data: Seq<AsciiColumnValues>) -> nat {
    if data.len() == 0 { 0 } else { values_count(data[0]) }
}

/// `buf` after writing the fields of columns `0..k` of row `row`, each cut
/// to its format's width at its column's place in the row; a field that
/// cannot be formatted, or that would end past `raw` bytes, is an error.
pub open spec fn ascii_fill_row(
    buf: Seq<u8>, cols: Seq<AsciiColumnModel>, data: Seq<AsciiColumnValues>, naxis1: int, raw: int, row: int, k: nat,
) -> core::result::Result<Seq<u8>, Error>
    decreases k,
{
    if k == 0 {
        Ok(buf)
    } else {
        match ascii_fill_row(buf, cols, data, naxis1, raw, row, (k - 1) as nat) {
            Err(e) => Err(e),
            Ok(b) => match spec_format_ascii_field(data[k - 1], cols[k - 1].format, row) {
                Err(e) => Err(e),
                Ok(f) => {
                    let fb = encode_utf8(f);
                    let w = format_width(cols[k - 1].format) as int;
                    let n = if fb.len() < w { fb.len() as int } else { w };
                    let dest = row * naxis1 + cols[k - 1].tbcol;
                    if dest + n > raw {
                        Err(Error::InvalidValue)
                    } else {
                        Ok(splice(b, dest, fb.subrange(0, n)))
                    }
                },
            },
        }
    }
}

/// `buf` after writing rows `0..n`.
pub open spec fn ascii_fill_rows(
    buf: Seq<u8>, cols: Seq<AsciiColumnModel>, data: Seq<AsciiColumnValues>, naxis1: int, raw: int, n: nat,
) -> core::result::Result<Seq<u8>, Error>
    decreases n,
{
    if n == 0 {
        Ok(buf)
    } else {
        match ascii_fill_rows(buf, cols, data, naxis1, raw, (n - 1) as nat) {
            Err(e) => Err(e),
            Ok(b) => ascii_fill_row(b, cols, data, naxis1, raw, n - 1, cols.len()),
        }
    }
}

/// The data bytes of an ASCII table: rows of `naxis1` bytes, spaces where
/// no field is written, then zeros to whole blocks. Not one data per
/// column is `InvalidValue`.
pub open spec fn spec_ascii_table_bytes(cols: Seq<AsciiColumnModel>, data: Seq<AsciiColumnValues>, naxis1: usize)
    -> core::result::Result<Seq<u8>, Error> {
    if cols.len() != data.len() {
        Err(Error::InvalidValue)
    } else {
        let raw = naxis1 * ascii_data_rows(data);
        match ascii_fill_rows(Seq::new(raw as nat, |i: int| 32u8), cols, data, naxis1 as int, raw, ascii_data_rows(data)) {
            Err(e) => Err(e),
            Ok(b) => Ok(b + Seq::new((spec_padded_len(raw) - raw) as nat, |i: int| 0u8)),
        }
    }
}

/// Writing the table neither overflows nor cuts a field inside a
/// character.
pub open spec fn ascii_table_writable(cols: Seq<AsciiColumnModel>, data: Seq<AsciiColumnValues>, naxis1: usize) -> bool {
    cols.len() == data.len() ==> {
        let n2 = ascii_data_rows(data);
        &&& spec_padded_len(naxis1 * n2) <= usize::MAX
        &&& forall|k: int| 0 <= k < cols.len() ==> naxis1 * n2 + (#[trigger] cols[k]).tbcol + format_width(cols[k].format) <= usize::MAX
        &&& forall|row: int, k: int| 0 <= row < n2 && 0 <= k < cols.len() ==> #[trigger] field_formattable(data[k], cols[k].format, row)
    }
}

proof fn lemma_fill_row_err(
    buf: Seq<u8>, cols: Seq<AsciiColumnModel>, data: Seq<AsciiColumnValues>, naxis1: int, raw: int, row: int, m: nat, n: nat,
)
    requires
        m <= n,
        ascii_fill_row(buf, cols, data, naxis1, raw, row, m) is Err,
    ensures
        ascii_fill_row(buf, cols, data, naxis1, raw, row, n) == ascii_fill_row(buf, cols, data, naxis1, raw, row, m),
    decreases n - m,
{
    if m < n {
        lemma_fill_row_err(buf, cols, data, naxis1, raw, row, m, (n - 1) as nat);
    }
}

proof fn lemma_fill_rows_err(
    buf: Seq<u8>, cols: Seq<AsciiColumnModel>, data: Seq<AsciiColumnValues>, naxis1: int, raw: int, m: nat, n: nat,
)
    requires
        m <= n,
        ascii_fill_rows(buf, cols, data, naxis1, raw, m) is Err,
    ensures
        ascii_fill_rows(buf, cols, data, naxis1, raw, n) == ascii_fill_rows(buf, cols, data, naxis1, raw, m),
    decreases n - m,
{
    if m < n {
        lemma_fill_rows_err(buf, cols, data, naxis1, raw, m, (n - 1) as nat);
    }
}

/// The number of values column data holds.
fn values_count_exec(d: &AsciiColumnData) -> (r: usize)
    ensures
        r == values_count(d@),
{
    match d {
        AsciiColumnData::Character(v) => v.len(),
        AsciiColumnData::Integer(v) => v.len(),
        AsciiColumnData::Float(v) => v.len(),
    }
}

/// Serialize column data into padded FITS data bytes for an ASCII table.
///
/// `naxis1` is the row width in bytes. Each row is written to exactly
/// `naxis1` bytes, space-padded. The result is padded to a FITS block
/// boundary with zeros.
pub fn serialize_ascii_table(columns: &[AsciiColumnDescriptor], col_data: &[AsciiColumnData], naxis1: usize)
    -> (r: Result<Vec<u8>>)
    requires
        ascii_table_writable(ascii_columns_view(columns@), ascii_data_view(col_data@), naxis1),
    ensures
        r matches Ok(b) ==> spec_ascii_table_bytes(ascii_columns_view(columns@), ascii_data_view(col_data@), naxis1)
            == Ok::<Seq<u8>, Error>(b@),
        r matches Err(e) ==> spec_ascii_table_bytes(ascii_columns_view(columns@), ascii_data_view(col_data@), naxis1)
            == Err::<Seq<u8>, Error>(e),
{
    let ghost cv = ascii_columns_view(columns@);
    let ghost dv = ascii_data_view(col_data@);
    if columns.len() != col_data.len() {
        return Err(Error::InvalidValue);
    }
    let naxis2 = if col_data.len() == 0 { 0 } else { values_count_exec(&col_data[0]) };
    assert(naxis2 == ascii_data_rows(dv));
    proof {
        lemma_padded_len_bounds((naxis1 * naxis2) as int);
        assert(naxis1 * naxis2 >= 0) by (nonlinear_arith);
    }
    let raw = naxis1 * naxis2;
    let padded = padded_byte_len(raw);
    let mut buf: Vec<u8> = Vec::new();
    let mut i: usize = 0;
    while i < raw
        invariant
            i <= raw,
            buf@ == Seq::new(i as nat, |j: int| 32u8),
        decreases raw - i,
    {
        buf.push(32u8);
        i += 1;
        assert(buf@ =~= Seq::new(i as nat, |j: int| 32u8));
    }
    let ghost start = buf@;
    let ncols = columns.len();
    let mut row: usize = 0;
    while row < naxis2
        invariant
            row <= naxis2,
            ncols == columns@.len(),
            ncols == col_data@.len(),
            cv == ascii_columns_view(columns@),
            dv == ascii_data_view(col_data@),
            naxis2 == ascii_data_rows(dv),
            raw == naxis1 * naxis2,
            start == Seq::new(raw as nat, |j: int| 32u8),
            buf@.len() == raw,
            ascii_table_writable(cv, dv, naxis1),
            ascii_fill_rows(start, cv, dv, naxis1 as int, raw as int, row as nat) == Ok::<Seq<u8>, Error>(buf@),
        decreases naxis2 - row,
    {
        let ghost row_buf = buf@;
        let mut k: usize = 0;
        while k < ncols
            invariant
                k <= ncols,
                row < naxis2,
                ncols == columns@.len(),
                ncols == col_data@.len(),
                cv == ascii_columns_view(columns@),
                dv == ascii_data_view(col_data@),
                naxis2 == ascii_data_rows(dv),
                raw == naxis1 * naxis2,
                start == Seq::new(raw as nat, |j: int| 32u8),
                buf@.len() == raw,
                ascii_table_writable(cv, dv, naxis1),
                ascii_fill_rows(start, cv, dv, naxis1 as int, raw as int, row as nat) == Ok::<Seq<u8>, Error>(row_buf),
                ascii_fill_row(row_buf, cv, dv, naxis1 as int, raw as int, row as int, k as nat) == Ok::<Seq<u8>, Error>(buf@),
            decreases ncols - k,
        {
            let col = &columns[k];
            assert(cv[k as int] == col@);
            assert(dv[k as int] == col_data@[k as int]@);
            assert(field_formattable(dv[k as int], cv[k as int].format, row as int));
            let field = match format_ascii_field(&col_data[k], &col.format, row) {
                Ok(f) => f,
                Err(e) => {
                    proof {
                        lemma_fill_row_err(row_buf, cv, dv, naxis1 as int, raw as int, row as int, (k + 1) as nat, ncols as nat);
                        lemma_fill_rows_err(start, cv, dv, naxis1 as int, raw as int, (row + 1) as nat, naxis2 as nat);
                    }
                    return Err(e);
                },
            };
            let fb = field.as_str().as_bytes();
            let w = col.format.width();
            let n = if fb.len() < w { fb.len() } else { w };
            proof {
                assert(naxis1 * naxis2 + cv[k as int].tbcol + format_width(cv[k as int].format) <= usize::MAX);
                assert(row * naxis1 <= naxis1 * naxis2) by (nonlinear_arith)
                    requires row < naxis2, naxis1 >= 0;
            }
            let dest = row * naxis1 + col.tbcol;
            if dest + n > raw {
                proof {
                    lemma_fill_row_err(row_buf, cv, dv, naxis1 as int, raw as int, row as int, (k + 1) as nat, ncols as nat);
                    lemma_fill_rows_err(start, cv, dv, naxis1 as int, raw as int, (row + 1) as nat, naxis2 as nat);
                }
                return Err(Error::InvalidValue);
            }
            write_cell(&mut buf, dest, vstd::slice::slice_subrange(fb, 0, n));
            k += 1;
        }
        row += 1;
    }
    let ghost filled = buf@;
    let mut j: usize = raw;
    while j < padded
        invariant
            raw <= j <= padded,
            buf@ == filled + Seq::new((j - raw) as nat, |i: int| 0u8),
        decreases padded - j,
    {
        buf.push(0u8);
        j += 1;
        assert(buf@ =~= filled + Seq::new((j - raw) as nat, |i: int| 0u8));
    }
    Ok(buf)
}

proof fn lemma_ascii_columns_cards_len(cols: Seq<AsciiColumnModel>, k: nat)
    ensures
        ascii_columns_cards(cols, k).len() <= 3 * k,
    decreases k,
{
    if k > 0 {
        lemma_ascii_columns_cards_len(cols, (k - 1) as nat);
    }
}

/// A complete ASCII table HDU: the header of its columns and rows, then
/// its data, each in whole blocks. Rows are counted by the first column's
/// data, and a row is as wide as the furthest field.
pub open spec fn spec_ascii_table_hdu(cols: Seq<AsciiColumnModel>, data: Seq<AsciiColumnValues>)
    -> core::result::Result<Seq<u8>, Error> {
    match spec_ascii_table_bytes(cols, data, ascii_row_width(cols) as usize) {
        Err(e) => Err(e),
        Ok(d) => Ok(spec_serialize_header(spec_ascii_table_cards(cols, ascii_data_rows(data) as usize)) + d),
    }
}

/// The widest row end of the columns.
fn ascii_row_width_exec(columns: &[AsciiColumnDescriptor]) -> (r: usize)
    requires
        ascii_columns_fit(ascii_columns_view(columns@)),
    ensures
        r == ascii_row_width(ascii_columns_view(columns@)),
{
    let ghost cv = ascii_columns_view(columns@);
    let mut naxis1: usize = 0;
    let mut i: usize = 0;
    while i < columns.len()
        invariant
            i <= columns@.len(),
            cv == ascii_columns_view(columns@),
            ascii_columns_fit(cv),
            naxis1 == ascii_row_width(cv.subrange(0, i as int)),
        decreases columns@.len() - i,
    {
        let col = &columns[i];
        assert(cv[i as int] == col@);
        assert(cv.subrange(0, i + 1).drop_last() =~= cv.subrange(0, i as int));
        let e = col.tbcol + col.format.width();
        if e > naxis1 {
            naxis1 = e;
        }
        i += 1;
    }
    assert(cv.subrange(0, cv.len() as int) =~= cv);
    naxis1
}

/// Build and serialize a complete ASCII table HDU (header + data).
///
/// Returns the combined header and data bytes, each padded to block
/// boundaries.
pub fn serialize_ascii_table_hdu(columns: &[AsciiColumnDescriptor], col_data: &[AsciiColumnData]) -> (r: Result<Vec<u8>>)
    requires
        ascii_columns_fit(ascii_columns_view(columns@)),
        ascii_table_writable(ascii_columns_view(columns@), ascii_data_view(col_data@),
            ascii_row_width(ascii_columns_view(columns@)) as usize),
        80 * (3 * columns@.len() + 9) + 2 * 2880
            + spec_padded_len(ascii_row_width(ascii_columns_view(columns@)) * ascii_data_rows(ascii_data_view(col_data@)))
            <= usize::MAX,
    ensures
        r matches Ok(b) ==> spec_ascii_table_hdu(ascii_columns_view(columns@), ascii_data_view(col_data@)) == Ok::<Seq<u8>, Error>(b@),
        r matches Err(e) ==> spec_ascii_table_hdu(ascii_columns_view(columns@), ascii_data_view(col_data@)) == Err::<Seq<u8>, Error>(e),
{
    let ghost cv = ascii_columns_view(columns@);
    let ghost dv = ascii_data_view(col_data@);
    let naxis1 = ascii_row_width_exec(columns);
    let naxis2 = if col_data.len() == 0 { 0 } else { values_count_exec(&col_data[0]) };
    assert(naxis2 == ascii_data_rows(dv)) by {
        if col_data@.len() > 0 {
            assert(dv[0] == col_data@[0]@);
        }
    }
    let cards = match build_ascii_table_cards(columns, naxis2) {
        Ok(c) => c,
        Err(e) => return Err(e),
    };
    proof {
        lemma_ascii_columns_cards_len(cv, cv.len());
        assert(cards_view(cards@).len() == cards@.len());
        lemma_padded_len_bounds((80 * (cards@.len() + 1)) as int);
    }
    let header = serialize_header(cards.as_slice());
    let data = serialize_ascii_table(columns, col_data, naxis1)?;
    proof {
        if cv.len() == dv.len() {
            lemma_padded_len_bounds(naxis1 * naxis2);
        }
    }
    let mut out: Vec<u8> = Vec::new();
    out.extend_from_slice(header.as_slice());
    out.extend_from_slice(data.as_slice());
    assert(out@ =~= header@ + data@);
    assert(cards_view(cards@) == spec_ascii_table_cards(cv, ascii_data_rows(dv) as usize));
    Ok(out)
}

} // verus!
