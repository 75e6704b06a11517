//! FITS binary table column formats and layout.
use vstd::prelude::*;

use crate::block::{lemma_padded_len_bounds, padded_byte_len, spec_padded_len};
use crate::error::{Error, Result};
use crate::hdu::{card_str, card_string_value, numbered_keyword, Hdu, HduInfo, HduInfoModel, HduModel};
use crate::header::{cards_view, serialize_header, spec_serialize_header, indexed_keyword, indexed_keyword_exec, Card, CardModel, StandardKeyword};
use crate::extension::ExtensionType;
use crate::value::{Value, ValueModel};
use crate::text::{ascii_chars, nat_digits, string_from_bytes, u64_decimal, chars_of, parse_usize_chars, spec_parse_usize, str_from_utf8, string_from_chars, trim, trim_bounds, trim_end, trim_end_index};
use vstd::utf8::{decode_utf8, encode_utf8, valid_utf8};
use crate::endian::{be_bytes, be_uint, lemma_pow256_values, pow256, push_be, read_u16_be, read_u32_be, read_u64_be, to_signed, to_unsigned};

verus! {

/// The data type of a column in a FITS binary table.
#[derive(Debug, Clone, Copy, PartialEq, Eq)]
pub enum BinaryColumnType {
    /// L -- logical, stored as a single byte (T/F/0).
    Logical,
    /// X -- bit array.
    Bit,
    /// B -- unsigned byte.
    Byte,
    /// I -- 16-bit signed integer.
    Short,
    /// J -- 32-bit signed integer.
    Int,
    /// K -- 64-bit signed integer.
    Long,
    /// E -- 32-bit IEEE float.
    Float,
    /// D -- 64-bit IEEE float.
    Double,
    /// C -- complex: pair of 32-bit IEEE floats.
    ComplexFloat,
    /// M -- complex: pair of 64-bit IEEE floats.
    ComplexDouble,
    /// A -- ASCII character.
    Ascii,
    /// P -- 32-bit variable-length array descriptor (8 bytes: count + heap offset).
    VarArrayP,
    /// Q -- 64-bit variable-length array descriptor (16 bytes: count + heap offset).
    VarArrayQ,
}

/// Bytes per element of each column type (0 for bits, which are packed).
pub open spec fn type_size(t: BinaryColumnType) -> nat {
    match t {
        BinaryColumnType::Logical => 1,
        BinaryColumnType::Bit => 0,
        BinaryColumnType::Byte => 1,
        BinaryColumnType::Short => 2,
        BinaryColumnType::Int => 4,
        BinaryColumnType::Long => 8,
        BinaryColumnType::Float => 4,
        BinaryColumnType::Double => 8,
        BinaryColumnType::ComplexFloat => 8,
        BinaryColumnType::ComplexDouble => 16,
        BinaryColumnType::Ascii => 1,
        BinaryColumnType::VarArrayP => 8,
        BinaryColumnType::VarArrayQ => 16,
    }
}

/// Return the number of bytes per single element for a column type.
///
/// For `Bit`, this returns 0 because bit columns use a special formula
/// based on repeat count (ceil(repeat / 8)).
pub fn binary_type_byte_size(col_type: &BinaryColumnType) -> (r: usize)
    ensures
        r == type_size(*col_type),
{
    match col_type {
        BinaryColumnType::Logical => 1,
        BinaryColumnType::Bit => 0,
        BinaryColumnType::Byte => 1,
        BinaryColumnType::Short => 2,
        BinaryColumnType::Int => 4,
        BinaryColumnType::Long => 8,
        BinaryColumnType::Float => 4,
        BinaryColumnType::Double => 8,
        BinaryColumnType::ComplexFloat => 8,
        BinaryColumnType::ComplexDouble => 16,
        BinaryColumnType::Ascii => 1,
        BinaryColumnType::VarArrayP => 8,
        BinaryColumnType::VarArrayQ => 16,
    }
}

/// The column type that a TFORM type code names.
pub open spec fn type_of_code(c: char) -> Option<BinaryColumnType> {
    if c == 'L' {
        Some(BinaryColumnType::Logical)
    } else if c == 'X' {
        Some(BinaryColumnType::Bit)
    } else if c == 'B' {
        Some(BinaryColumnType::Byte)
    } else if c == 'I' {
        Some(BinaryColumnType::Short)
    } else if c == 'J' {
        Some(BinaryColumnType::Int)
    } else if c == 'K' {
        Some(BinaryColumnType::Long)
    } else if c == 'E' {
        Some(BinaryColumnType::Float)
    } else if c == 'D' {
        Some(BinaryColumnType::Double)
    } else if c == 'C' {
        Some(BinaryColumnType::ComplexFloat)
    } else if c == 'M' {
        Some(BinaryColumnType::ComplexDouble)
    } else if c == 'A' {
        Some(BinaryColumnType::Ascii)
    } else {
        None
    }
}

/// The column type that a TFORM type code names.
fn type_of_code_exec(c: char) -> (r: Option<BinaryColumnType>)
    ensures
        r == type_of_code(c),
{
    if c == 'L' {
        Some(BinaryColumnType::Logical)
    } else if c == 'X' {
        Some(BinaryColumnType::Bit)
    } else if c == 'B' {
        Some(BinaryColumnType::Byte)
    } else if c == 'I' {
        Some(BinaryColumnType::Short)
    } else if c == 'J' {
        Some(BinaryColumnType::Int)
    } else if c == 'K' {
        Some(BinaryColumnType::Long)
    } else if c == 'E' {
        Some(BinaryColumnType::Float)
    } else if c == 'D' {
        Some(BinaryColumnType::Double)
    } else if c == 'C' {
        Some(BinaryColumnType::ComplexFloat)
    } else if c == 'M' {
        Some(BinaryColumnType::ComplexDouble)
    } else if c == 'A' {
        Some(BinaryColumnType::Ascii)
    } else {
        None
    }
}

/// The characters before the first `(`.
pub open spec fn before_paren(t: Seq<char>) -> Seq<char>
    decreases t.len(),
{
    if t.len() == 0 {
        t
    } else if t[0] == '(' {
        Seq::empty()
    } else {
        seq![t[0]] + before_paren(t.drop_first())
    }
}

/// A repeat count: 1 when absent, else the decimal value.
pub open spec fn repeat_count(r: Seq<char>) -> Option<usize> {
    if r.len() == 0 { Some(1) } else { spec_parse_usize(r) }
}

/// The repeat count and type of a binary-table TFORM value such as `1J`,
/// `10E`, `20A`, `1024X` or `1PB(200)`.
pub open spec fn spec_parse_tform_binary(s: Seq<char>) -> core::result::Result<(usize, BinaryColumnType), Error> {
    let t = trim(s);
    if t.len() == 0 {
        Err(Error::InvalidValue)
    } else {
        let u = before_paren(t);
        if u.len() >= 2 && (u[u.len() - 2] == 'P' || u[u.len() - 2] == 'Q') && (u.last() as u32) < 128 {
            if type_of_code(u.last()) is None {
                Err(Error::InvalidValue)
            } else {
                match repeat_count(u.subrange(0, u.len() - 2)) {
                    None => Err(Error::InvalidValue),
                    Some(n) => Ok((n, if u[u.len() - 2] == 'P' { BinaryColumnType::VarArrayP } else { BinaryColumnType::VarArrayQ })),
                }
            }
        } else {
            match repeat_count(u.subrange(0, u.len() - 1)) {
                None => Err(Error::InvalidValue),
                Some(n) => match type_of_code(u.last()) {
                    None => Err(Error::InvalidValue),
                    Some(ty) => Ok((n, ty)),
                },
            }
        }
    }
}

/// The TFORM value is one that `parse_tform_binary` can slice: once trimmed
/// it is empty, or what comes before any `(` ends in an ASCII character.
pub open spec fn tform_sliceable(s: Seq<char>) -> bool {
    trim(s).len() > 0 ==> before_paren(trim(s)).len() > 0 && (before_paren(trim(s)).last() as u32) < 128
}

/// The length of `t[from..]` before its first `(`, counted from `from`.
proof fn lemma_before_paren_index(t: Seq<char>, i: int)
    requires
        0 <= i <= t.len(),
        forall|j: int| 0 <= j < i ==> t[j] != '(',
        i == t.len() || t[i] == '(',
    ensures
        before_paren(t) == t.subrange(0, i),
    decreases t.len(),
{
    if t.len() > 0 && i > 0 {
        lemma_before_paren_index(t.drop_first(), i - 1);
        assert(t.subrange(0, i) =~= seq![t[0]] + t.drop_first().subrange(0, i - 1));
    } else {
        assert(t.subrange(0, i) =~= Seq::<char>::empty());
    }
}

/// Parse a TFORMn value like "1J", "10E", "20A", "1024X", "1PB(200)", "1QJ".
///
/// Returns the repeat count and the column type.
pub fn parse_tform_binary(s: &str) -> (r: Result<(usize, BinaryColumnType)>)
    requires
        tform_sliceable(s@),
    ensures
        r matches Ok(v) ==> spec_parse_tform_binary(s@) == Ok::<(usize, BinaryColumnType), Error>(v),
        r matches Err(e) ==> spec_parse_tform_binary(s@) == Err::<(usize, BinaryColumnType), Error>(e),
{
    let cs = chars_of(s);
    let (b, e0) = trim_bounds(&cs, 0, cs.len());
    assert(cs@.subrange(0, cs@.len() as int) =~= cs@);
    let ghost t = trim(s@);
    if b == e0 {
        return Err(Error::InvalidValue);
    }
    let mut e = b;
    while e < e0 && cs[e] != '('
        invariant
            b <= e <= e0,
            e0 <= cs@.len(),
            forall|j: int| b <= j < e ==> cs@[j] != '(',
        decreases e0 - e,
    {
        e += 1;
    }
    proof {
        assert(t == cs@.subrange(b as int, e0 as int));
        lemma_before_paren_index(t, e - b);
    }
    let ghost u = before_paren(t);
    assert(u == cs@.subrange(b as int, e as int));
    let n = e - b;
    if n >= 2 && (cs[e - 2] == 'P' || cs[e - 2] == 'Q') && (cs[e - 1] as u32) < 128 {
        match type_of_code_exec(cs[e - 1]) {
            None => return Err(Error::InvalidValue),
            Some(_) => {},
        }
        assert(u.subrange(0, u.len() - 2) == cs@.subrange(b as int, e - 2));
        let repeat = if e - 2 == b {
            1
        } else {
            match parse_usize_chars(&cs, b, e - 2) {
                Some(v) => v,
                None => return Err(Error::InvalidValue),
            }
        };
        let ty = if cs[e - 2] == 'P' { BinaryColumnType::VarArrayP } else { BinaryColumnType::VarArrayQ };
        return Ok((repeat, ty));
    }
    assert(u.subrange(0, u.len() - 1) == cs@.subrange(b as int, e - 1));
    let repeat = if e - 1 == b {
        1
    } else {
        match parse_usize_chars(&cs, b, e - 1) {
            Some(v) => v,
            None => return Err(Error::InvalidValue),
        }
    };
    match type_of_code_exec(cs[e - 1]) {
        None => Err(Error::InvalidValue),
        Some(ty) => Ok((repeat, ty)),
    }
}

/// The bytes that `repeat` elements of type `t` take in a row.
pub open spec fn byte_width(repeat: nat, t: BinaryColumnType) -> nat {
    match t {
        BinaryColumnType::Bit => (repeat + 7) / 8,
        _ => repeat * type_size(t),
    }
}

/// Compute the byte width of a column given its repeat count and type.
pub fn compute_byte_width(repeat: usize, col_type: &BinaryColumnType) -> (r: usize)
    requires
        byte_width(repeat as nat, *col_type) <= usize::MAX,
    ensures
        r == byte_width(repeat as nat, *col_type),
{
    match col_type {
        BinaryColumnType::Bit => repeat / 8 + if repeat % 8 == 0 { 0 } else { 1 },
        _ => repeat * binary_type_byte_size(col_type),
    }
}

/// The byte width of a column, or `None` when it does not fit in a `usize`.
pub(crate) fn checked_byte_width(repeat: usize, col_type: &BinaryColumnType) -> (r: Option<usize>)
    ensures
        r matches Some(w) ==> w == byte_width(repeat as nat, *col_type),
        r is None <==> byte_width(repeat as nat, *col_type) > usize::MAX,
{
    match col_type {
        BinaryColumnType::Bit => Some(repeat / 8 + if repeat % 8 == 0 { 0 } else { 1 }),
        _ => repeat.checked_mul(binary_type_byte_size(col_type)),
    }
}

/// Describes one column in a binary table.
#[derive(Debug, Clone, PartialEq)]
pub struct BinaryColumnDescriptor {
    /// Column name (from TTYPEn), if present.
    pub name: Option<String>,
    /// Repeat count from TFORMn.
    pub repeat: usize,
    /// The element data type.
    pub col_type: BinaryColumnType,
    /// Total bytes this column occupies per row.
    pub byte_width: usize,
}

/// The content of a [`BinaryColumnDescriptor`].
pub struct BinaryColumnModel {
    pub name: Option<Seq<char>>,
    pub repeat: usize,
    pub col_type: BinaryColumnType,
    pub byte_width: usize,
}

impl View for BinaryColumnDescriptor {
    type V = BinaryColumnModel;

    open spec fn view(&self) -> BinaryColumnModel {
        BinaryColumnModel {
            name: match self.name { Some(n) => Some(n@), None => None },
            repeat: self.repeat,
            col_type: self.col_type,
            byte_width: self.byte_width,
        }
    }
}

/// The bytes `TFORM`.
pub open spec fn tform_name() -> Seq<u8> {
    seq![84u8, 70u8, 79u8, 82u8, 77u8]
}

/// The bytes `TTYPE`.
pub open spec fn ttype_name() -> Seq<u8> {
    seq![84u8, 84u8, 89u8, 80u8, 69u8]
}

/// The trimmed string value of a numbered keyword, if its name fits and a
/// card holds a string under it.
pub open spec fn numbered_str(cards: Seq<CardModel>, prefix: Seq<u8>, n: nat) -> Option<Seq<char>> {
    match numbered_keyword(prefix, n) {
        Some(k) => card_str(cards, k),
        None => None,
    }
}

/// The trimmed string value of a numbered keyword.
pub fn numbered_string_value(cards: &[Card], prefix: &[u8], n: usize) -> (r: Option<String>)
    ensures
        r matches Some(v) ==> numbered_str(cards_view(cards@), prefix@, n as nat) == Some(v@),
        r is None ==> numbered_str(cards_view(cards@), prefix@, n as nat) is None,
{
    match crate::hdu::numbered_keyword_exec(prefix, n) {
        Some(k) => card_string_value(cards, &k),
        None => None,
    }
}

/// Column `n` (1-based) of a binary table, from its TFORMn and TTYPEn.
pub open spec fn spec_binary_column(cards: Seq<CardModel>, n: nat) -> core::result::Result<BinaryColumnModel, Error> {
    match numbered_str(cards, tform_name(), n) {
        None => Err(Error::MissingKeyword("TFORMn")),
        Some(tf) => match spec_parse_tform_binary(tf) {
            Err(e) => Err(e),
            Ok((repeat, ty)) => if byte_width(repeat as nat, ty) > usize::MAX {
                Err(Error::InvalidValue)
            } else {
                Ok(BinaryColumnModel {
                    name: numbered_str(cards, ttype_name(), n),
                    repeat,
                    col_type: ty,
                    byte_width: byte_width(repeat as nat, ty) as usize,
                })
            },
        },
    }
}

/// Columns 1..=k of a binary table.
pub open spec fn spec_binary_columns(cards: Seq<CardModel>, k: nat) -> core::result::Result<Seq<BinaryColumnModel>, Error>
    decreases k,
{
    if k == 0 {
        Ok(Seq::empty())
    } else {
        match spec_binary_columns(cards, (k - 1) as nat) {
            Err(e) => Err(e),
            Ok(cols) => match spec_binary_column(cards, k) {
                Err(e) => Err(e),
                Ok(c) => Ok(cols.push(c)),
            },
        }
    }
}

/// Once reading the columns fails, it fails the same way for every larger
/// column count.
proof fn lemma_binary_columns_err(cards: Seq<CardModel>, m: nat, n: nat)
    requires
        m <= n,
        spec_binary_columns(cards, m) is Err,
    ensures
        spec_binary_columns(cards, n) == spec_binary_columns(cards, m),
    decreases n - m,
{
    if m < n {
        lemma_binary_columns_err(cards, m, (n - 1) as nat);
    }
}

/// Every TFORMn value among the first `k` columns can be sliced.
pub open spec fn tforms_sliceable(cards: Seq<CardModel>, k: nat) -> bool {
    forall|n: nat| 1 <= n <= k ==> (#[trigger] numbered_str(cards, tform_name(), n) matches Some(tf) ==> tform_sliceable(tf))
}

/// The views of a sequence of column descriptors.
pub open spec fn binary_columns_view(cols: Seq<BinaryColumnDescriptor>) -> Seq<BinaryColumnModel> {
    Seq::new(cols.len(), |i: int| cols[i]@)
}

/// Extract binary table column descriptors from header cards.
///
/// A column whose width in bytes does not fit in a `usize` makes the
/// header invalid (`InvalidValue`).
pub fn parse_binary_table_columns(cards: &[Card], tfields: usize) -> (r: Result<Vec<BinaryColumnDescriptor>>)
    requires
        tforms_sliceable(cards_view(cards@), tfields as nat),
    ensures
        r matches Ok(v) ==> spec_binary_columns(cards_view(cards@), tfields as nat)
            == Ok::<Seq<BinaryColumnModel>, Error>(binary_columns_view(v@)),
        r matches Err(e) ==> spec_binary_columns(cards_view(cards@), tfields as nat)
            == Err::<Seq<BinaryColumnModel>, Error>(e),
{
    let ghost cv = cards_view(cards@);
    let tform = [84u8, 70u8, 79u8, 82u8, 77u8];
    let ttype = [84u8, 84u8, 89u8, 80u8, 69u8];
    assert(tform@ =~= tform_name());
    assert(ttype@ =~= ttype_name());
    let mut columns: Vec<BinaryColumnDescriptor> = Vec::new();
    assert(binary_columns_view(columns@) =~= Seq::<BinaryColumnModel>::empty());
    let mut k: usize = 0;
    while k < tfields
        invariant
            k <= tfields,
            columns@.len() == k,
            cv == cards_view(cards@),
            tform@ == tform_name(),
            ttype@ == ttype_name(),
            tforms_sliceable(cv, tfields as nat),
            spec_binary_columns(cv, k as nat) == Ok::<Seq<BinaryColumnModel>, Error>(binary_columns_view(columns@)),
        decreases tfields - k,
    {
        let i = k + 1;
        let tf = match numbered_string_value(cards, &tform, i) {
            Some(s) => s,
            None => {
                proof { lemma_binary_columns_err(cv, i as nat, tfields as nat); }
                return Err(Error::MissingKeyword("TFORMn"));
            },
        };
        assert(numbered_str(cv, tform_name(), i as nat) == Some(tf@));
        let (repeat, col_type) = match parse_tform_binary(tf.as_str()) {
            Ok(v) => v,
            Err(e) => {
                proof { lemma_binary_columns_err(cv, i as nat, tfields as nat); }
                return Err(e);
            },
        };
        let width = match checked_byte_width(repeat, &col_type) {
            Some(w) => w,
            None => {
                proof { lemma_binary_columns_err(cv, i as nat, tfields as nat); }
                return Err(Error::InvalidValue);
            },
        };
        let name = numbered_string_value(cards, &ttype, i);
        let ghost old_cols = columns@;
        columns.push(BinaryColumnDescriptor { name, repeat, col_type, byte_width: width });
        proof {
            assert(binary_columns_view(columns@) =~= binary_columns_view(old_cols).push(columns@[k as int]@));
        }
        k += 1;
    }
    Ok(columns)
}

/// The byte offset of each column within a row.
pub open spec fn column_offset(cols: Seq<BinaryColumnModel>, i: int) -> int
    decreases i,
{
    if i <= 0 { 0 } else { column_offset(cols, i - 1) + cols[i - 1].byte_width }
}

/// Compute byte offsets for each column within a row.
pub fn column_offsets(columns: &[BinaryColumnDescriptor]) -> (r: Vec<usize>)
    requires
        column_offset(binary_columns_view(columns@), columns@.len() as int) <= usize::MAX,
    ensures
        r@.len() == columns@.len(),
        forall|i: int| 0 <= i < r@.len() ==> r@[i] == column_offset(binary_columns_view(columns@), i),
{
    let ghost cv = binary_columns_view(columns@);
    let mut offsets: Vec<usize> = Vec::new();
    let mut offset: usize = 0;
    let mut i: usize = 0;
    proof { lemma_column_offset_mono(cv, columns@.len() as int); }
    while i < columns.len()
        invariant
            i <= columns@.len(),
            cv == binary_columns_view(columns@),
            offsets@.len() == i,
            offset == column_offset(cv, i as int),
            forall|j: int| 0 <= j < i ==> offsets@[j] == column_offset(cv, j),
            forall|j: int| 0 <= j <= columns@.len() ==> #[trigger] column_offset(cv, j) <= column_offset(cv, columns@.len() as int),
            column_offset(cv, columns@.len() as int) <= usize::MAX,
        decreases columns@.len() - i,
    {
        offsets.push(offset);
        proof {
            assert(cv[i as int].byte_width == columns@[i as int].byte_width);
            assert(column_offset(cv, i + 1) <= column_offset(cv, columns@.len() as int));
        }
        offset = offset + columns[i].byte_width;
        i += 1;
    }
    offsets
}

/// Column offsets only grow.
pub(crate) proof fn lemma_column_offset_mono(cols: Seq<BinaryColumnModel>, n: int)
    ensures
        forall|j: int| 0 <= j <= n ==> #[trigger] column_offset(cols, j) <= column_offset(cols, n),
    decreases n,
{
    if n > 0 {
        lemma_column_offset_mono(cols, n - 1);
    }
}


// ── Reading column cells ──

/// Column data extracted from a binary table.
///
/// IEEE floating-point values are carried by their bit patterns: `Float`
/// holds the `u32` bits of each `f32`, `Double` the `u64` bits of each
/// `f64` (as `f32::to_bits` / `f64::to_bits` give them).
#[derive(Debug, Clone, PartialEq)]
pub enum BinaryColumnData {
    Logical(Vec<bool>),
    Byte(Vec<u8>),
    Short(Vec<i16>),
    Int(Vec<i32>),
    Long(Vec<i64>),
    Float(Vec<u32>),
    Double(Vec<u64>),
    ComplexFloat(Vec<(u32, u32)>),
    ComplexDouble(Vec<(u64, u64)>),
    Ascii(Vec<String>),
    Bit(Vec<Vec<u8>>),
}

/// The content of a [`BinaryColumnData`].
pub enum ColumnValues {
    Logical(Seq<bool>),
    Byte(Seq<u8>),
    Short(Seq<i16>),
    Int(Seq<i32>),
    Long(Seq<i64>),
    Float(Seq<u32>),
    Double(Seq<u64>),
    ComplexFloat(Seq<(u32, u32)>),
    ComplexDouble(Seq<(u64, u64)>),
    Ascii(Seq<Seq<char>>),
    Bit(Seq<Seq<u8>>),
}

impl View for BinaryColumnData {
    type V = ColumnValues;

    open spec fn view(&self) -> ColumnValues {
        match self {
            BinaryColumnData::Logical(v) => ColumnValues::Logical(v@),
            BinaryColumnData::Byte(v) => ColumnValues::Byte(v@),
            BinaryColumnData::Short(v) => ColumnValues::Short(v@),
            BinaryColumnData::Int(v) => ColumnValues::Int(v@),
            BinaryColumnData::Long(v) => ColumnValues::Long(v@),
            BinaryColumnData::Float(v) => ColumnValues::Float(v@),
            BinaryColumnData::Double(v) => ColumnValues::Double(v@),
            BinaryColumnData::ComplexFloat(v) => ColumnValues::ComplexFloat(v@),
            BinaryColumnData::ComplexDouble(v) => ColumnValues::ComplexDouble(v@),
            BinaryColumnData::Ascii(v) => ColumnValues::Ascii(Seq::new(v@.len(), |i: int| v@[i]@)),
            BinaryColumnData::Bit(v) => ColumnValues::Bit(Seq::new(v@.len(), |i: int| v@[i]@)),
        }
    }
}

/// The unsigned big-endian value of the `n` bytes at `pos`.
pub open spec fn be_at(data: Seq<u8>, pos: int, n: nat) -> int {
    be_uint(data.subrange(pos, data.len() as int), n)
}

/// Where element `r` of the cell in row `row` starts.
pub open spec fn elem_pos(start: int, naxis1: int, col_offset: int, stride: int, row: int, r: int) -> int {
    start + row * naxis1 + col_offset + r * stride
}

/// The values `f(row, r)` for each of `rows` rows and, within a row, each
/// of `repeat` elements, row after row.
pub open spec fn cells<T>(rows: nat, repeat: nat, f: spec_fn(int, int) -> T) -> Seq<T>
    decreases rows,
{
    if rows == 0 {
        Seq::empty()
    } else {
        cells((rows - 1) as nat, repeat, f) + Seq::new(repeat, |r: int| f(rows - 1, r))
    }
}

/// The big-endian unsigned values of `width` bytes each, `repeat` per row,
/// `stride` bytes apart, from `col_offset` bytes into each row.
pub open spec fn be_grid(
    data: Seq<u8>,
    start: int,
    naxis1: int,
    rows: nat,
    col_offset: int,
    repeat: nat,
    stride: int,
    width: nat,
) -> Seq<u64> {
    cells(rows, repeat, |row: int, r: int| be_at(data, elem_pos(start, naxis1, col_offset, stride, row, r), width) as u64)
}

/// The unsigned big-endian value of the first `width` (1, 2, 4 or 8) bytes.
pub(crate) fn read_be_width(buf: &[u8], width: usize) -> (r: u64)
    requires
        width == 1 || width == 2 || width == 4 || width == 8,
        buf@.len() >= width,
    ensures
        r == be_uint(buf@, width as nat),
        r < pow256(width as nat),
{
    proof { lemma_pow256_values(); }
    if width == 1 {
        proof { reveal_with_fuel(be_uint, 2); }
        buf[0] as u64
    } else if width == 2 {
        read_u16_be(buf) as u64
    } else if width == 4 {
        read_u32_be(buf) as u64
    } else {
        read_u64_be(buf)
    }
}

pub proof fn lemma_mul_le(a: int, b: int, c: int)
    requires
        0 <= a <= b,
        0 <= c,
    ensures
        a * c <= b * c,
{
    assert(a * c <= b * c) by (nonlinear_arith)
        requires 0 <= a <= b, 0 <= c;
}

/// Read the big-endian values of a column's elements, row by row.
pub(crate) fn read_be_cells(
    data: &[u8],
    start: usize,
    naxis1: usize,
    rows: usize,
    col_offset: usize,
    repeat: usize,
    stride: usize,
    width: usize,
) -> (r: Vec<u64>)
    requires
        width == 1 || width == 2 || width == 4 || width == 8,
        width <= stride,
        rows > 0 && repeat > 0 ==> start + (rows - 1) * naxis1 + col_offset + (repeat - 1) * stride + width
            <= data@.len(),
    ensures
        r@ == be_grid(data@, start as int, naxis1 as int, rows as nat, col_offset as int, repeat as nat, stride as int, width as nat),
        forall|i: int| 0 <= i < r@.len() ==> r@[i] < pow256(width as nat),
{
    let ghost f = |row: int, k: int| be_at(data@, elem_pos(start as int, naxis1 as int, col_offset as int, stride as int, row, k), width as nat) as u64;
    let dl = data.len();
    let mut out: Vec<u64> = Vec::new();
    let mut row: usize = 0;
    while row < rows
        invariant
            row <= rows,
            dl == data@.len(),
            width == 1 || width == 2 || width == 4 || width == 8,
            width <= stride,
            rows > 0 && repeat > 0 ==> start + (rows - 1) * naxis1 + col_offset + (repeat - 1) * stride + width
                <= data@.len(),
            f == (|row: int, k: int| be_at(data@, elem_pos(start as int, naxis1 as int, col_offset as int, stride as int, row, k), width as nat) as u64),
            out@ == cells(row as nat, repeat as nat, f),
            forall|i: int| 0 <= i < out@.len() ==> out@[i] < pow256(width as nat),
        decreases rows - row,
    {
        let ghost before = out@;
        let mut k: usize = 0;
        while k < repeat
            invariant
                row < rows,
                k <= repeat,
                dl == data@.len(),
                width == 1 || width == 2 || width == 4 || width == 8,
                width <= stride,
                rows > 0 && repeat > 0 ==> start + (rows - 1) * naxis1 + col_offset + (repeat - 1) * stride + width
                    <= data@.len(),
                f == (|row: int, k: int| be_at(data@, elem_pos(start as int, naxis1 as int, col_offset as int, stride as int, row, k), width as nat) as u64),
                out@ == before + Seq::new(k as nat, |j: int| f(row as int, j)),
                forall|i: int| 0 <= i < out@.len() ==> out@[i] < pow256(width as nat),
            decreases repeat - k,
        {
            proof {
                lemma_mul_le(row as int, rows - 1, naxis1 as int);
                lemma_mul_le(k as int, repeat - 1, stride as int);
            }
            let off = start + row * naxis1 + col_offset + k * stride;
            let v = read_be_width(&data[off..data.len()], width);
            assert(data@.subrange(off as int, data@.len() as int) == data@.subrange(off as int, data@.len() as int));
            out.push(v);
            k += 1;
            assert(out@ =~= before + Seq::new(k as nat, |j: int| f(row as int, j)));
        }
        row += 1;
        assert(out@ =~= cells(row as nat, repeat as nat, f));
    }
    out
}


/// Logical elements: the byte `T` is true, anything else false.
fn logicals(v: Vec<u64>) -> (r: Vec<bool>)
    ensures
        r@ == v@.map_values(|u: u64| u == 84),
{
    let mut out: Vec<bool> = Vec::new();
    let mut i: usize = 0;
    while i < v.len()
        invariant
            i <= v@.len(),
            out@ == v@.subrange(0, i as int).map_values(|u: u64| u == 84),
        decreases v@.len() - i,
    {
        out.push(v[i] == 84);
        i += 1;
        assert(out@ =~= v@.subrange(0, i as int).map_values(|u: u64| u == 84));
    }
    assert(v@.subrange(0, v@.len() as int) =~= v@);
    out
}

/// Single bytes.
fn bytes_of(v: Vec<u64>) -> (r: Vec<u8>)
    requires
        forall|i: int| 0 <= i < v@.len() ==> v@[i] < 256,
    ensures
        r@ == v@.map_values(|u: u64| u as u8),
{
    let mut out: Vec<u8> = Vec::new();
    let mut i: usize = 0;
    while i < v.len()
        invariant
            i <= v@.len(),
            forall|j: int| 0 <= j < v@.len() ==> v@[j] < 256,
            out@ == v@.subrange(0, i as int).map_values(|u: u64| u as u8),
        decreases v@.len() - i,
    {
        out.push(v[i] as u8);
        i += 1;
        assert(out@ =~= v@.subrange(0, i as int).map_values(|u: u64| u as u8));
    }
    assert(v@.subrange(0, v@.len() as int) =~= v@);
    out
}

/// Two's-complement 16-bit values.
pub(crate) fn shorts_of(v: Vec<u64>) -> (r: Vec<i16>)
    requires
        forall|i: int| 0 <= i < v@.len() ==> v@[i] < 65536,
    ensures
        r@ == v@.map_values(|u: u64| to_signed(u as int, 16) as i16),
{
    let mut out: Vec<i16> = Vec::new();
    let mut i: usize = 0;
    while i < v.len()
        invariant
            i <= v@.len(),
            forall|j: int| 0 <= j < v@.len() ==> v@[j] < 65536,
            out@ == v@.subrange(0, i as int).map_values(|u: u64| to_signed(u as int, 16) as i16),
        decreases v@.len() - i,
    {
        let u = v[i];
        let x: i16 = if u >= 32768 { (u as i64 - 65536) as i16 } else { u as i16 };
        out.push(x);
        i += 1;
        assert(out@ =~= v@.subrange(0, i as int).map_values(|u: u64| to_signed(u as int, 16) as i16));
    }
    assert(v@.subrange(0, v@.len() as int) =~= v@);
    out
}

/// Two's-complement 32-bit values.
pub(crate) fn ints_of(v: Vec<u64>) -> (r: Vec<i32>)
    requires
        forall|i: int| 0 <= i < v@.len() ==> v@[i] < 4294967296,
    ensures
        r@ == v@.map_values(|u: u64| to_signed(u as int, 32) as i32),
{
    let mut out: Vec<i32> = Vec::new();
    let mut i: usize = 0;
    while i < v.len()
        invariant
            i <= v@.len(),
            forall|j: int| 0 <= j < v@.len() ==> v@[j] < 4294967296,
            out@ == v@.subrange(0, i as int).map_values(|u: u64| to_signed(u as int, 32) as i32),
        decreases v@.len() - i,
    {
        let u = v[i];
        let x: i32 = if u >= 2147483648 { (u as i64 - 4294967296) as i32 } else { u as i32 };
        out.push(x);
        i += 1;
        assert(out@ =~= v@.subrange(0, i as int).map_values(|u: u64| to_signed(u as int, 32) as i32));
    }
    assert(v@.subrange(0, v@.len() as int) =~= v@);
    out
}

/// Two's-complement 64-bit values.
pub(crate) fn longs_of(v: Vec<u64>) -> (r: Vec<i64>)
    ensures
        r@ == v@.map_values(|u: u64| to_signed(u as int, 64) as i64),
{
    let mut out: Vec<i64> = Vec::new();
    let mut i: usize = 0;
    while i < v.len()
        invariant
            i <= v@.len(),
            out@ == v@.subrange(0, i as int).map_values(|u: u64| to_signed(u as int, 64) as i64),
        decreases v@.len() - i,
    {
        let u = v[i];
        let x: i64 = if u >= 9223372036854775808 { ((u - 9223372036854775808) as i64) + i64::MIN } else { u as i64 };
        out.push(x);
        i += 1;
        assert(out@ =~= v@.subrange(0, i as int).map_values(|u: u64| to_signed(u as int, 64) as i64));
    }
    assert(v@.subrange(0, v@.len() as int) =~= v@);
    out
}

/// 32-bit patterns.
pub(crate) fn words_of(v: Vec<u64>) -> (r: Vec<u32>)
    requires
        forall|i: int| 0 <= i < v@.len() ==> v@[i] < 4294967296,
    ensures
        r@ == v@.map_values(|u: u64| u as u32),
{
    let mut out: Vec<u32> = Vec::new();
    let mut i: usize = 0;
    while i < v.len()
        invariant
            i <= v@.len(),
            forall|j: int| 0 <= j < v@.len() ==> v@[j] < 4294967296,
            out@ == v@.subrange(0, i as int).map_values(|u: u64| u as u32),
        decreases v@.len() - i,
    {
        out.push(v[i] as u32);
        i += 1;
        assert(out@ =~= v@.subrange(0, i as int).map_values(|u: u64| u as u32));
    }
    assert(v@.subrange(0, v@.len() as int) =~= v@);
    out
}

/// Pairs of 32-bit patterns, element by element.
fn word_pairs(re: Vec<u64>, im: Vec<u64>) -> (r: Vec<(u32, u32)>)
    requires
        re@.len() == im@.len(),
        forall|i: int| 0 <= i < re@.len() ==> re@[i] < 4294967296 && im@[i] < 4294967296,
    ensures
        r@ == Seq::new(re@.len(), |i: int| (re@[i] as u32, im@[i] as u32)),
{
    let mut out: Vec<(u32, u32)> = Vec::new();
    let mut i: usize = 0;
    while i < re.len()
        invariant
            i <= re@.len(),
            re@.len() == im@.len(),
            forall|j: int| 0 <= j < re@.len() ==> re@[j] < 4294967296 && im@[j] < 4294967296,
            out@ == Seq::new(i as nat, |j: int| (re@[j] as u32, im@[j] as u32)),
        decreases re@.len() - i,
    {
        out.push((re[i] as u32, im[i] as u32));
        i += 1;
        assert(out@ =~= Seq::new(i as nat, |j: int| (re@[j] as u32, im@[j] as u32)));
    }
    out
}

/// Pairs of 64-bit patterns, element by element.
fn long_pairs(re: Vec<u64>, im: Vec<u64>) -> (r: Vec<(u64, u64)>)
    requires
        re@.len() == im@.len(),
    ensures
        r@ == Seq::new(re@.len(), |i: int| (re@[i], im@[i])),
{
    let mut out: Vec<(u64, u64)> = Vec::new();
    let mut i: usize = 0;
    while i < re.len()
        invariant
            i <= re@.len(),
            re@.len() == im@.len(),
            out@ == Seq::new(i as nat, |j: int| (re@[j], im@[j])),
        decreases re@.len() - i,
    {
        out.push((re[i], im[i]));
        i += 1;
        assert(out@ =~= Seq::new(i as nat, |j: int| (re@[j], im@[j])));
    }
    out
}


/// `cells` holds `rows * repeat` values.
pub proof fn lemma_cells_len<T>(rows: nat, repeat: nat, f: spec_fn(int, int) -> T)
    ensures
        cells(rows, repeat, f).len() == rows * repeat,
    decreases rows,
{
    if rows > 0 {
        let r1 = (rows - 1) as nat;
        lemma_cells_len(r1, repeat, f);
        assert(cells(rows, repeat, f).len() == cells(r1, repeat, f).len() + repeat);
        assert(rows * repeat == r1 * repeat + repeat) by (nonlinear_arith)
            requires rows == r1 + 1;
    } else {
        assert(rows * repeat == 0) by (nonlinear_arith)
            requires rows == 0;
    }
}

/// Element `r` of row `row` sits at `row * repeat + r`.
pub proof fn lemma_cells_index<T>(rows: nat, repeat: nat, f: spec_fn(int, int) -> T, row: int, r: int)
    requires
        0 <= row < rows,
        0 <= r < repeat,
    ensures
        cells(rows, repeat, f).len() == rows * repeat,
        cells(rows, repeat, f)[row * repeat + r] == f(row, r),
    decreases rows,
{
    lemma_cells_len(rows, repeat, f);
    let r1 = (rows - 1) as nat;
    lemma_cells_len(r1, repeat, f);
    if row < r1 {
        lemma_cells_index(r1, repeat, f, row, r);
        assert(row * repeat + r < r1 * repeat) by (nonlinear_arith)
            requires row + 1 <= r1, r < repeat;
    } else {
        assert(row * repeat + r == r1 * repeat + r);
    }
}

/// The decoding of a column cell by cell: element `r` of row `row` of a
/// column grid is the big-endian value of the `width` bytes at
/// `start + row * naxis1 + col_offset + r * stride`.
pub proof fn lemma_be_grid_at(
    data: Seq<u8>, start: int, naxis1: int, rows: nat, col_offset: int, repeat: nat, stride: int, width: nat, row: int, r: int,
)
    requires
        0 <= row < rows,
        0 <= r < repeat,
    ensures
        be_grid(data, start, naxis1, rows, col_offset, repeat, stride, width).len() == rows * repeat,
        be_grid(data, start, naxis1, rows, col_offset, repeat, stride, width)[row * repeat + r]
            == be_at(data, start + row * naxis1 + col_offset + r * stride, width) as u64,
{
    lemma_cells_index(rows, repeat,
        |row: int, r: int| be_at(data, elem_pos(start, naxis1, col_offset, stride, row, r), width) as u64, row, r);
}

/// A grid of elements `size` bytes apart, each `width` bytes from `extra`
/// bytes into its slot, stays inside cells of `rep * size` bytes.
proof fn lemma_grid_fits(len: int, start: int, naxis1: int, rows: int, col_offset: int, rep: int, size: int, extra: int, width: int)
    requires
        rows > 0 ==> start + (rows - 1) * naxis1 + col_offset + rep * size <= len,
        0 <= start,
        0 <= naxis1,
        0 <= extra,
        0 <= width,
        extra + width <= size,
    ensures
        rows > 0 && rep > 0 ==> start + (rows - 1) * naxis1 + (col_offset + extra) + (rep - 1) * size + width <= len,
        rows > 0 && rep > 0 ==> col_offset + extra + width <= len,
{
    assert(rows > 0 ==> (rows - 1) * naxis1 >= 0) by (nonlinear_arith)
        requires 0 <= naxis1;
    assert(rep > 0 ==> (rep - 1) * size + size == rep * size) by (nonlinear_arith);
    assert(rep > 0 && size >= 0 ==> rep * size >= size) by (nonlinear_arith);
}

/// Where the cell of a column starts in row `row`.
pub open spec fn row_base(start: int, naxis1: int, col_offset: int, row: int) -> int {
    start + row * naxis1 + col_offset
}

/// The cells of a column lie inside the data: the last row's cell ends at
/// or before its end.
pub open spec fn cells_fit(data_len: int, start: int, naxis1: int, rows: nat, col: BinaryColumnModel, col_offset: int) -> bool {
    rows > 0 ==> row_base(start, naxis1, col_offset, rows - 1) + col.byte_width <= data_len
}

/// The text of an `A` cell: its bytes read as UTF-8, trailing whitespace
/// dropped.
pub open spec fn ascii_cell(data: Seq<u8>, base: int, repeat: nat) -> Seq<char> {
    trim_end(decode_utf8(data.subrange(base, base + repeat)))
}

/// The values of one column over `rows` rows, the cell of row `row` starting
/// at `start + row * naxis1 + col_offset`.
pub open spec fn spec_column_cells(
    data: Seq<u8>,
    start: int,
    naxis1: int,
    rows: nat,
    col: BinaryColumnModel,
    col_offset: int,
) -> core::result::Result<ColumnValues, Error> {
    let rep = col.repeat as nat;
    match col.col_type {
        BinaryColumnType::VarArrayP | BinaryColumnType::VarArrayQ => Err(Error::InvalidValue),
        BinaryColumnType::Logical => Ok(ColumnValues::Logical(
            be_grid(data, start, naxis1, rows, col_offset, rep, 1, 1).map_values(|u: u64| u == 84))),
        BinaryColumnType::Byte => Ok(ColumnValues::Byte(
            be_grid(data, start, naxis1, rows, col_offset, rep, 1, 1).map_values(|u: u64| u as u8))),
        BinaryColumnType::Short => Ok(ColumnValues::Short(
            be_grid(data, start, naxis1, rows, col_offset, rep, 2, 2).map_values(|u: u64| to_signed(u as int, 16) as i16))),
        BinaryColumnType::Int => Ok(ColumnValues::Int(
            be_grid(data, start, naxis1, rows, col_offset, rep, 4, 4).map_values(|u: u64| to_signed(u as int, 32) as i32))),
        BinaryColumnType::Long => Ok(ColumnValues::Long(
            be_grid(data, start, naxis1, rows, col_offset, rep, 8, 8).map_values(|u: u64| to_signed(u as int, 64) as i64))),
        BinaryColumnType::Float => Ok(ColumnValues::Float(
            be_grid(data, start, naxis1, rows, col_offset, rep, 4, 4).map_values(|u: u64| u as u32))),
        BinaryColumnType::Double => Ok(ColumnValues::Double(
            be_grid(data, start, naxis1, rows, col_offset, rep, 8, 8))),
        BinaryColumnType::ComplexFloat => {
            let re = be_grid(data, start, naxis1, rows, col_offset, rep, 8, 4);
            let im = be_grid(data, start, naxis1, rows, col_offset + 4, rep, 8, 4);
            Ok(ColumnValues::ComplexFloat(Seq::new(re.len(), |i: int| (re[i] as u32, im[i] as u32))))
        },
        BinaryColumnType::ComplexDouble => {
            let re = be_grid(data, start, naxis1, rows, col_offset, rep, 16, 8);
            let im = be_grid(data, start, naxis1, rows, col_offset + 8, rep, 16, 8);
            Ok(ColumnValues::ComplexDouble(Seq::new(re.len(), |i: int| (re[i], im[i]))))
        },
        BinaryColumnType::Ascii => {
            if forall|row: int| 0 <= row < rows ==> valid_utf8(
                #[trigger] data.subrange(row_base(start, naxis1, col_offset, row), row_base(start, naxis1, col_offset, row) + rep))
            {
                Ok(ColumnValues::Ascii(Seq::new(rows, |row: int| ascii_cell(data, row_base(start, naxis1, col_offset, row), rep))))
            } else {
                Err(Error::InvalidValue)
            }
        },
        BinaryColumnType::Bit => Ok(ColumnValues::Bit(Seq::new(rows, |row: int|
            data.subrange(row_base(start, naxis1, col_offset, row), row_base(start, naxis1, col_offset, row) + (rep + 7) / 8)))),
    }
}

/// The byte width of a column is the one its repeat count and type give.
pub open spec fn column_wf(col: BinaryColumnModel) -> bool {
    col.byte_width == byte_width(col.repeat as nat, col.col_type)
}

/// The text cells of an `A` column, row by row.
fn read_ascii_cells(data: &[u8], start: usize, naxis1: usize, rows: usize, col_offset: usize, repeat: usize)
    -> (r: Result<Vec<String>>)
    requires
        rows > 0 ==> row_base(start as int, naxis1 as int, col_offset as int, rows - 1) + repeat <= data@.len(),
    ensures
        r matches Ok(v) ==> (forall|row: int| 0 <= row < rows ==> valid_utf8(
                #[trigger] data@.subrange(row_base(start as int, naxis1 as int, col_offset as int, row),
                    row_base(start as int, naxis1 as int, col_offset as int, row) + repeat)))
            && v@.len() == rows
            && forall|row: int| 0 <= row < rows ==> #[trigger] v@[row]@
                == ascii_cell(data@, row_base(start as int, naxis1 as int, col_offset as int, row), repeat as nat),
        r matches Err(e) ==> e == Error::InvalidValue && !(forall|row: int| 0 <= row < rows ==> valid_utf8(
                #[trigger] data@.subrange(row_base(start as int, naxis1 as int, col_offset as int, row),
                    row_base(start as int, naxis1 as int, col_offset as int, row) + repeat))),
{
    let dl = data.len();
    let mut out: Vec<String> = Vec::new();
    let mut row: usize = 0;
    while row < rows
        invariant
            row <= rows,
            dl == data@.len(),
            rows > 0 ==> row_base(start as int, naxis1 as int, col_offset as int, rows - 1) + repeat <= data@.len(),
            out@.len() == row,
            forall|j: int| 0 <= j < row ==> valid_utf8(
                #[trigger] data@.subrange(row_base(start as int, naxis1 as int, col_offset as int, j),
                    row_base(start as int, naxis1 as int, col_offset as int, j) + repeat)),
            forall|j: int| 0 <= j < row ==> #[trigger] out@[j]@
                == ascii_cell(data@, row_base(start as int, naxis1 as int, col_offset as int, j), repeat as nat),
        decreases rows - row,
    {
        proof { lemma_mul_le(row as int, rows - 1, naxis1 as int); }
        let base = start + row * naxis1 + col_offset;
        let bytes = vstd::slice::slice_subrange(data, base, base + repeat);
        let s = match str_from_utf8(bytes) {
            Some(s) => s,
            None => {
                assert(bytes@ == data@.subrange(row_base(start as int, naxis1 as int, col_offset as int, row as int),
                    row_base(start as int, naxis1 as int, col_offset as int, row as int) + repeat));
                return Err(Error::InvalidValue);
            },
        };
        let cs = chars_of(s);
        let e = trim_end_index(cs.as_slice(), cs.len());
        assert(cs@.subrange(0, cs@.len() as int) =~= cs@);
        let t = string_from_chars(vstd::slice::slice_subrange(cs.as_slice(), 0, e));
        out.push(t);
        row += 1;
    }
    Ok(out)
}

/// The bit cells of an `X` column, row by row.
fn read_bit_cells(data: &[u8], start: usize, naxis1: usize, rows: usize, col_offset: usize, nbytes: usize)
    -> (r: Vec<Vec<u8>>)
    requires
        rows > 0 ==> row_base(start as int, naxis1 as int, col_offset as int, rows - 1) + nbytes <= data@.len(),
    ensures
        r@.len() == rows,
        forall|row: int| 0 <= row < rows ==> #[trigger] r@[row]@ == data@.subrange(
            row_base(start as int, naxis1 as int, col_offset as int, row),
            row_base(start as int, naxis1 as int, col_offset as int, row) + nbytes),
{
    let dl = data.len();
    let mut out: Vec<Vec<u8>> = Vec::new();
    let mut row: usize = 0;
    while row < rows
        invariant
            row <= rows,
            dl == data@.len(),
            rows > 0 ==> row_base(start as int, naxis1 as int, col_offset as int, rows - 1) + nbytes <= data@.len(),
            out@.len() == row,
            forall|j: int| 0 <= j < row ==> #[trigger] out@[j]@ == data@.subrange(
                row_base(start as int, naxis1 as int, col_offset as int, j),
                row_base(start as int, naxis1 as int, col_offset as int, j) + nbytes),
        decreases rows - row,
    {
        proof { lemma_mul_le(row as int, rows - 1, naxis1 as int); }
        let base = start + row * naxis1 + col_offset;
        out.push(vstd::slice::slice_to_vec(vstd::slice::slice_subrange(data, base, base + nbytes)));
        row += 1;
    }
    out
}

/// Read the cells of one column over `rows` rows, the cell of row `row`
/// starting at `start + row * naxis1 + col_offset`.
#[verifier::spinoff_prover]
#[verifier::rlimit(60)]
fn read_column_cells(
    fits_data: &[u8],
    data_start: usize,
    naxis1: usize,
    naxis2: usize,
    col: &BinaryColumnDescriptor,
    col_offset: usize,
) -> (r: Result<BinaryColumnData>)
    requires
        column_wf(col@),
        cells_fit(fits_data@.len() as int, data_start as int, naxis1 as int, naxis2 as nat, col@, col_offset as int),
    ensures
        r matches Ok(v) ==> spec_column_cells(fits_data@, data_start as int, naxis1 as int, naxis2 as nat, col@, col_offset as int)
            == Ok::<ColumnValues, Error>(v@),
        r matches Err(e) ==> spec_column_cells(fits_data@, data_start as int, naxis1 as int, naxis2 as nat, col@, col_offset as int)
            == Err::<ColumnValues, Error>(e),
{
    let rep = col.repeat;
    let dl = fits_data.len();
    proof {
        assert(naxis2 > 0 ==> data_start + (naxis2 - 1) * naxis1 + col_offset + col.byte_width <= fits_data@.len());
    }
    match col.col_type {
        BinaryColumnType::VarArrayP | BinaryColumnType::VarArrayQ => Err(Error::InvalidValue),
        BinaryColumnType::Logical => {
            proof { lemma_grid_fits(fits_data@.len() as int, data_start as int, naxis1 as int, naxis2 as int, col_offset as int, rep as int, 1, 0, 1); }
            let g = read_be_cells(fits_data, data_start, naxis1, naxis2, col_offset, rep, 1, 1);
            Ok(BinaryColumnData::Logical(logicals(g)))
        },
        BinaryColumnType::Byte => {
            proof { lemma_grid_fits(fits_data@.len() as int, data_start as int, naxis1 as int, naxis2 as int, col_offset as int, rep as int, 1, 0, 1); }
            let g = read_be_cells(fits_data, data_start, naxis1, naxis2, col_offset, rep, 1, 1);
            proof { lemma_pow256_values(); }
            Ok(BinaryColumnData::Byte(bytes_of(g)))
        },
        BinaryColumnType::Short => {
            proof { lemma_grid_fits(fits_data@.len() as int, data_start as int, naxis1 as int, naxis2 as int, col_offset as int, rep as int, 2, 0, 2); }
            let g = read_be_cells(fits_data, data_start, naxis1, naxis2, col_offset, rep, 2, 2);
            proof { lemma_pow256_values(); }
            Ok(BinaryColumnData::Short(shorts_of(g)))
        },
        BinaryColumnType::Int => {
            proof { lemma_grid_fits(fits_data@.len() as int, data_start as int, naxis1 as int, naxis2 as int, col_offset as int, rep as int, 4, 0, 4); }
            let g = read_be_cells(fits_data, data_start, naxis1, naxis2, col_offset, rep, 4, 4);
            proof { lemma_pow256_values(); }
            Ok(BinaryColumnData::Int(ints_of(g)))
        },
        BinaryColumnType::Long => {
            proof { lemma_grid_fits(fits_data@.len() as int, data_start as int, naxis1 as int, naxis2 as int, col_offset as int, rep as int, 8, 0, 8); }
            let g = read_be_cells(fits_data, data_start, naxis1, naxis2, col_offset, rep, 8, 8);
            Ok(BinaryColumnData::Long(longs_of(g)))
        },
        BinaryColumnType::Float => {
            proof { lemma_grid_fits(fits_data@.len() as int, data_start as int, naxis1 as int, naxis2 as int, col_offset as int, rep as int, 4, 0, 4); }
            let g = read_be_cells(fits_data, data_start, naxis1, naxis2, col_offset, rep, 4, 4);
            proof { lemma_pow256_values(); }
            Ok(BinaryColumnData::Float(words_of(g)))
        },
        BinaryColumnType::Double => {
            proof { lemma_grid_fits(fits_data@.len() as int, data_start as int, naxis1 as int, naxis2 as int, col_offset as int, rep as int, 8, 0, 8); }
            let g = read_be_cells(fits_data, data_start, naxis1, naxis2, col_offset, rep, 8, 8);
            Ok(BinaryColumnData::Double(g))
        },
        BinaryColumnType::ComplexFloat => {
            if rep == 0 || naxis2 == 0 {
                let r = BinaryColumnData::ComplexFloat(Vec::new());
                proof {
                    lemma_cells_len(naxis2 as nat, rep as nat, |row: int, k: int| be_at(fits_data@, elem_pos(data_start as int, naxis1 as int, col_offset as int, 8, row, k), 4) as u64);
                    assert(naxis2 * rep == 0) by (nonlinear_arith) requires rep == 0 || naxis2 == 0;
                    if let ColumnValues::ComplexFloat(sv) = r@ {
                        let re = be_grid(fits_data@, data_start as int, naxis1 as int, naxis2 as nat, col_offset as int, rep as nat, 8, 4);
                        let im = be_grid(fits_data@, data_start as int, naxis1 as int, naxis2 as nat, col_offset + 4, rep as nat, 8, 4);
                        assert(sv =~= Seq::new(re.len(), |i: int| (re[i] as u32, im[i] as u32)));
                    }
                }
                return Ok(r);
            }
            proof {
                lemma_grid_fits(fits_data@.len() as int, data_start as int, naxis1 as int, naxis2 as int, col_offset as int, rep as int, 8, 0, 4);
                lemma_grid_fits(fits_data@.len() as int, data_start as int, naxis1 as int, naxis2 as int, col_offset as int, rep as int, 8, 4, 4);
            }
            let re = read_be_cells(fits_data, data_start, naxis1, naxis2, col_offset, rep, 8, 4);
            let im = read_be_cells(fits_data, data_start, naxis1, naxis2, col_offset + 4, rep, 8, 4);
            proof {
                lemma_pow256_values();
                lemma_cells_len(naxis2 as nat, rep as nat, |row: int, k: int| be_at(fits_data@, elem_pos(data_start as int, naxis1 as int, col_offset as int, 8, row, k), 4) as u64);
                lemma_cells_len(naxis2 as nat, rep as nat, |row: int, k: int| be_at(fits_data@, elem_pos(data_start as int, naxis1 as int, col_offset + 4, 8, row, k), 4) as u64);
            }
            Ok(BinaryColumnData::ComplexFloat(word_pairs(re, im)))
        },
        BinaryColumnType::ComplexDouble => {
            if rep == 0 || naxis2 == 0 {
                let r = BinaryColumnData::ComplexDouble(Vec::new());
                proof {
                    lemma_cells_len(naxis2 as nat, rep as nat, |row: int, k: int| be_at(fits_data@, elem_pos(data_start as int, naxis1 as int, col_offset as int, 16, row, k), 8) as u64);
                    assert(naxis2 * rep == 0) by (nonlinear_arith) requires rep == 0 || naxis2 == 0;
                    if let ColumnValues::ComplexDouble(sv) = r@ {
                        let re = be_grid(fits_data@, data_start as int, naxis1 as int, naxis2 as nat, col_offset as int, rep as nat, 16, 8);
                        let im = be_grid(fits_data@, data_start as int, naxis1 as int, naxis2 as nat, col_offset + 8, rep as nat, 16, 8);
                        assert(sv =~= Seq::new(re.len(), |i: int| (re[i], im[i])));
                    }
                }
                return Ok(r);
            }
            proof {
                lemma_grid_fits(fits_data@.len() as int, data_start as int, naxis1 as int, naxis2 as int, col_offset as int, rep as int, 16, 0, 8);
                lemma_grid_fits(fits_data@.len() as int, data_start as int, naxis1 as int, naxis2 as int, col_offset as int, rep as int, 16, 8, 8);
            }
            let re = read_be_cells(fits_data, data_start, naxis1, naxis2, col_offset, rep, 16, 8);
            let im = read_be_cells(fits_data, data_start, naxis1, naxis2, col_offset + 8, rep, 16, 8);
            proof {
                lemma_cells_len(naxis2 as nat, rep as nat, |row: int, k: int| be_at(fits_data@, elem_pos(data_start as int, naxis1 as int, col_offset as int, 16, row, k), 8) as u64);
                lemma_cells_len(naxis2 as nat, rep as nat, |row: int, k: int| be_at(fits_data@, elem_pos(data_start as int, naxis1 as int, col_offset + 8, 16, row, k), 8) as u64);
            }
            Ok(BinaryColumnData::ComplexDouble(long_pairs(re, im)))
        },
        BinaryColumnType::Ascii => {
            match read_ascii_cells(fits_data, data_start, naxis1, naxis2, col_offset, rep) {
                Ok(v) => {
                    let r = BinaryColumnData::Ascii(v);
                    proof {
                        if let ColumnValues::Ascii(sv) = r@ {
                            assert(sv =~= Seq::new(naxis2 as nat, |row: int| ascii_cell(fits_data@, row_base(data_start as int, naxis1 as int, col_offset as int, row), rep as nat)));
                        }
                    }
                    Ok(r)
                },
                Err(e) => Err(e),
            }
        },
        BinaryColumnType::Bit => {
            let nb = rep / 8 + if rep % 8 == 0 { 0 } else { 1 };
            let v = read_bit_cells(fits_data, data_start, naxis1, naxis2, col_offset, nb);
            let r = BinaryColumnData::Bit(v);
            proof {
                if let ColumnValues::Bit(sv) = r@ {
                    assert(sv =~= Seq::new(naxis2 as nat, |row: int| fits_data@.subrange(
                        row_base(data_start as int, naxis1 as int, col_offset as int, row),
                        row_base(data_start as int, naxis1 as int, col_offset as int, row) + (rep as nat + 7) / 8)));
                }
            }
            Ok(r)
        },
    }
}


// ── Reading columns and rows of a table HDU ──

/// Parsed columns have the byte width their type and repeat count give.
pub(crate) proof fn lemma_binary_columns_wf(cards: Seq<CardModel>, k: nat)
    ensures
        spec_binary_columns(cards, k) matches Ok(cols) ==> cols.len() == k
            && forall|i: int| 0 <= i < cols.len() ==> #[trigger] column_wf(cols[i]),
    decreases k,
{
    if k > 0 {
        lemma_binary_columns_wf(cards, (k - 1) as nat);
    }
}

/// The row width, row count and columns of a binary table HDU whose rows
/// lie inside the data.
pub open spec fn spec_table_info(data_len: int, hdu: HduModel)
    -> core::result::Result<(usize, usize, Seq<BinaryColumnModel>), Error> {
    match hdu.info {
        HduInfoModel::BinaryTable { naxis1, naxis2, tfields, .. } => {
            if hdu.data_start + naxis1 * naxis2 > data_len {
                Err(Error::UnexpectedEof)
            } else {
                match spec_binary_columns(hdu.cards, tfields as nat) {
                    Err(e) => Err(e),
                    Ok(cols) => Ok((naxis1, naxis2, cols)),
                }
            }
        },
        _ => Err(Error::InvalidHeader),
    }
}

/// The header can be read without slicing a TFORMn value inside a character.
pub open spec fn table_sliceable(hdu: HduModel) -> bool {
    hdu.info matches HduInfoModel::BinaryTable { tfields, .. } ==> tforms_sliceable(hdu.cards, tfields as nat)
}

/// The column offsets of a table fit in a `usize`.
pub open spec fn offsets_fit(cols: Seq<BinaryColumnModel>) -> bool {
    column_offset(cols, cols.len() as int) <= usize::MAX
}

/// Extract the binary table metadata from an HDU: row width, row count and
/// columns.
fn extract_table_info(fits_data: &[u8], hdu: &Hdu) -> (r: Result<(usize, usize, Vec<BinaryColumnDescriptor>)>)
    requires
        table_sliceable(hdu@),
    ensures
        r matches Ok((n1, n2, cols)) ==> spec_table_info(fits_data@.len() as int, hdu@)
            == Ok::<(usize, usize, Seq<BinaryColumnModel>), Error>((n1, n2, binary_columns_view(cols@))),
        r matches Err(e) ==> spec_table_info(fits_data@.len() as int, hdu@)
            == Err::<(usize, usize, Seq<BinaryColumnModel>), Error>(e),
{
    let (naxis1, naxis2, tfields) = match &hdu.info {
        HduInfo::BinaryTable { naxis1, naxis2, tfields, .. } => (*naxis1, *naxis2, *tfields),
        _ => return Err(Error::InvalidHeader),
    };
    let dl = fits_data.len();
    let fits = match naxis1.checked_mul(naxis2) {
        Some(body) => match hdu.data_start.checked_add(body) {
            Some(end) => end <= fits_data.len(),
            None => false,
        },
        None => {
            proof {
                assert(naxis1 * naxis2 >= 0) by (nonlinear_arith);
            }
            false
        },
    };
    if !fits {
        return Err(Error::UnexpectedEof);
    }
    let columns = parse_binary_table_columns(&hdu.cards, tfields)?;
    Ok((naxis1, naxis2, columns))
}

/// Reading column `col_index` of a binary table HDU does not run past the
/// data, nor its column offsets past `usize`.
pub open spec fn column_readable(data_len: int, hdu: HduModel, col_index: int) -> bool {
    &&& table_sliceable(hdu)
    &&& match spec_table_info(data_len, hdu) {
        Ok((n1, n2, cols)) => 0 <= col_index < cols.len() ==> {
            &&& offsets_fit(cols)
            &&& cells_fit(data_len, hdu.data_start, n1 as int, n2 as nat, cols[col_index], column_offset(cols, col_index))
        },
        Err(_) => true,
    }
}

/// Whether a TFORM value can be cut before its type code.
pub fn tform_sliceable_exec(s: &str) -> (b: bool)
    ensures
        b == tform_sliceable(s@),
{
    let cs = chars_of(s);
    let (b, e0) = trim_bounds(&cs, 0, cs.len());
    assert(cs@.subrange(0, cs@.len() as int) =~= cs@);
    let ghost t = trim(s@);
    if b == e0 {
        return true;
    }
    let mut e = b;
    while e < e0 && cs[e] != '('
        invariant
            b <= e <= e0,
            e0 <= cs@.len(),
            forall|j: int| b <= j < e ==> cs@[j] != '(',
        decreases e0 - e,
    {
        e += 1;
    }
    proof {
        assert(t == cs@.subrange(b as int, e0 as int));
        lemma_before_paren_index(t, e - b);
    }
    e > b && (cs[e - 1] as u32) < 128
}

/// Whether every TFORMn value, `n` from 1 to `tfields`, can be cut before
/// its type code.
pub fn tforms_sliceable_exec(cards: &[Card], tfields: usize) -> (b: bool)
    ensures
        b == tforms_sliceable(cards_view(cards@), tfields as nat),
{
    let tform: [u8; 5] = [84u8, 70u8, 79u8, 82u8, 77u8];
    assert(tform@ == tform_name());
    let ghost cv = cards_view(cards@);
    let mut n: usize = 0;
    while n < tfields
        invariant
            n <= tfields,
            tform@ == tform_name(),
            cv == cards_view(cards@),
            forall|m: nat| 1 <= m <= n ==> (#[trigger] numbered_str(cv, tform_name(), m) matches Some(tf) ==> tform_sliceable(tf)),
        decreases tfields - n,
    {
        n += 1;
        match numbered_string_value(cards, &tform, n) {
            Some(tf) => {
                if !tform_sliceable_exec(tf.as_str()) {
                    return false;
                }
            },
            None => {},
        }
    }
    true
}

/// Whether column `col_index` of a binary table HDU can be read without
/// running past the data.
pub fn column_readable_exec(fits_data: &[u8], hdu: &Hdu, col_index: usize) -> (b: bool)
    ensures
        b == column_readable(fits_data@.len() as int, hdu@, col_index as int),
{
    let data_len = fits_data.len();
    let sliceable = match &hdu.info {
        HduInfo::BinaryTable { tfields, .. } => tforms_sliceable_exec(hdu.cards.as_slice(), *tfields),
        _ => true,
    };
    if !sliceable {
        return false;
    }
    let (n1, n2, cols) = match extract_table_info(fits_data, hdu) {
        Ok(info) => info,
        Err(_) => return true,
    };
    if col_index >= cols.len() {
        return true;
    }
    let ghost cv = binary_columns_view(cols@);
    proof {
        lemma_column_offset_mono(cv, cols@.len() as int);
    }
    let mut acc: usize = 0;
    let mut col_off: usize = 0;
    let mut i: usize = 0;
    while i < cols.len()
        invariant
            i <= cols@.len(),
            col_index < cols@.len(),
            cv == binary_columns_view(cols@),
            acc == column_offset(cv, i as int),
            i > col_index ==> col_off == column_offset(cv, col_index as int),
            data_len == fits_data@.len(),
            spec_table_info(fits_data@.len() as int, hdu@) == Ok::<(usize, usize, Seq<BinaryColumnModel>), Error>((n1, n2, cv)),
        decreases cols@.len() - i,
    {
        assert(cv[i as int] == cols@[i as int]@);
        if i == col_index {
            col_off = acc;
        }
        assert(column_offset(cv, i + 1) == acc + cols@[i as int].byte_width);
        match acc.checked_add(cols[i].byte_width) {
            Some(a) => acc = a,
            None => {
                proof {
                    lemma_column_offset_mono(cv, cols@.len() as int);
                    assert(column_offset(cv, i + 1) <= column_offset(cv, cols@.len() as int));
                    assert(cv.len() == cols@.len());
                    assert(!offsets_fit(cv));
                    assert(spec_table_info(fits_data@.len() as int, hdu@) == Ok::<(usize, usize, Seq<BinaryColumnModel>), Error>((n1, n2, cv)));
                }
                return false;
            },
        }
        i += 1;
    }
    assert(cv[col_index as int] == cols@[col_index as int]@);
    assert(offsets_fit(cv));
    let ghost col = cv[col_index as int];
    assert(col.byte_width == cols@[col_index as int].byte_width);
    if n2 == 0 {
        return true;
    }
    let last = match (n2 - 1).checked_mul(n1) {
        Some(x) => x,
        None => {
            proof {
                assert((n2 - 1) * n1 >= 0) by (nonlinear_arith) requires n2 >= 1, n1 >= 0;
                assert(row_base(hdu.data_start as int, n1 as int, col_off as int, n2 - 1) > usize::MAX);
                assert(fits_data@.len() <= usize::MAX);
                assert(col.byte_width >= 0);
                assert(!cells_fit(fits_data@.len() as int, hdu.data_start as int, n1 as int, n2 as nat, col, col_off as int));
            }
            return false;
        },
    };
    assert(row_base(hdu.data_start as int, n1 as int, col_off as int, n2 - 1) == hdu.data_start + last + col_off);
    match hdu.data_start.checked_add(last) {
        Some(x) => match x.checked_add(col_off) {
            Some(y) => match y.checked_add(cols[col_index].byte_width) {
                Some(z) => z <= fits_data.len(),
                None => false,
            },
            None => false,
        },
        None => false,
    }
}

/// The values of column `col_index` over all rows of a binary table HDU.
pub open spec fn spec_read_binary_column(data: Seq<u8>, hdu: HduModel, col_index: int)
    -> core::result::Result<ColumnValues, Error> {
    match spec_table_info(data.len() as int, hdu) {
        Err(e) => Err(e),
        Ok((n1, n2, cols)) => if col_index >= cols.len() {
            Err(Error::InvalidValue)
        } else {
            spec_column_cells(data, hdu.data_start, n1 as int, n2 as nat, cols[col_index], column_offset(cols, col_index))
        },
    }
}

/// Read a single column from all rows of a binary table HDU.
pub fn read_binary_column(fits_data: &[u8], hdu: &Hdu, col_index: usize) -> (r: Result<BinaryColumnData>)
    requires
        column_readable(fits_data@.len() as int, hdu@, col_index as int),
    ensures
        r matches Ok(v) ==> spec_read_binary_column(fits_data@, hdu@, col_index as int) == Ok::<ColumnValues, Error>(v@),
        r matches Err(e) ==> spec_read_binary_column(fits_data@, hdu@, col_index as int) == Err::<ColumnValues, Error>(e),
{
    let (naxis1, naxis2, columns) = extract_table_info(fits_data, hdu)?;
    if col_index >= columns.len() {
        return Err(Error::InvalidValue);
    }
    proof {
        lemma_binary_columns_wf(hdu@.cards, match hdu@.info { HduInfoModel::BinaryTable { tfields, .. } => tfields as nat, _ => 0 });
        assert(binary_columns_view(columns@)[col_index as int] == columns@[col_index as int]@);
    }
    let offsets = column_offsets(&columns);
    let col = &columns[col_index];
    let col_offset = offsets[col_index];
    read_column_cells(fits_data, hdu.data_start, naxis1, naxis2, col, col_offset)
}

/// The values of column `col_index` over rows `start_row` to
/// `start_row + num_rows` of a binary table HDU; rows past the table's last
/// are an `InvalidValue` error.
pub open spec fn spec_read_binary_column_range(data: Seq<u8>, hdu: HduModel, col_index: int, start_row: int, num_rows: int)
    -> core::result::Result<ColumnValues, Error> {
    match spec_table_info(data.len() as int, hdu) {
        Err(e) => Err(e),
        Ok((n1, n2, cols)) => if col_index >= cols.len() || start_row + num_rows > n2 {
            Err(Error::InvalidValue)
        } else {
            spec_column_cells(data, hdu.data_start + start_row * n1, n1 as int, num_rows as nat, cols[col_index],
                column_offset(cols, col_index))
        },
    }
}

/// Read a single column over a range of rows of a binary table HDU.
pub fn read_binary_column_range(fits_data: &[u8], hdu: &Hdu, col_index: usize, start_row: usize, num_rows: usize)
    -> (r: Result<BinaryColumnData>)
    requires
        column_readable(fits_data@.len() as int, hdu@, col_index as int),
    ensures
        r matches Ok(v) ==> spec_read_binary_column_range(fits_data@, hdu@, col_index as int, start_row as int, num_rows as int)
            == Ok::<ColumnValues, Error>(v@),
        r matches Err(e) ==> spec_read_binary_column_range(fits_data@, hdu@, col_index as int, start_row as int, num_rows as int)
            == Err::<ColumnValues, Error>(e),
{
    let dlen = fits_data.len();
    let (naxis1, naxis2, columns) = extract_table_info(fits_data, hdu)?;
    assert(hdu.data_start + naxis1 * naxis2 <= dlen);
    if col_index >= columns.len() {
        return Err(Error::InvalidValue);
    }
    if start_row > naxis2 || num_rows > naxis2 - start_row {
        return Err(Error::InvalidValue);
    }
    proof {
        lemma_binary_columns_wf(hdu@.cards, match hdu@.info { HduInfoModel::BinaryTable { tfields, .. } => tfields as nat, _ => 0 });
        assert(binary_columns_view(columns@)[col_index as int] == columns@[col_index as int]@);
        assert(start_row * naxis1 <= naxis1 * naxis2) by (nonlinear_arith)
            requires start_row <= naxis2, naxis1 >= 0;
        if num_rows > 0 {
            assert(start_row * naxis1 + (num_rows - 1) * naxis1 <= (naxis2 - 1) * naxis1) by (nonlinear_arith)
                requires start_row + num_rows <= naxis2, num_rows >= 1;
        }
    }
    let offsets = column_offsets(&columns);
    let col = &columns[col_index];
    let col_offset = offsets[col_index];
    let start = hdu.data_start + start_row * naxis1;
    read_column_cells(fits_data, start, naxis1, num_rows, col, col_offset)
}

/// The cells of one row, column after column, from column `k` on; the
/// first column that cannot be read gives the error.
pub open spec fn spec_row_cells(data: Seq<u8>, start: int, naxis1: int, row: int, cols: Seq<BinaryColumnModel>, k: int)
    -> core::result::Result<Seq<ColumnValues>, Error>
    decreases cols.len() - k,
{
    if k >= cols.len() || k < 0 {
        Ok(Seq::empty())
    } else {
        match spec_column_cells(data, start, naxis1, 1, cols[k], column_offset(cols, k) + row * naxis1) {
            Err(e) => Err(e),
            Ok(v) => match spec_row_cells(data, start, naxis1, row, cols, k + 1) {
                Err(e) => Err(e),
                Ok(rest) => Ok(seq![v] + rest),
            },
        }
    }
}

/// Reading row `row_index` of a binary table HDU does not run past the
/// data, nor its column offsets past `usize`.
pub open spec fn row_readable(data_len: int, hdu: HduModel, row_index: int) -> bool {
    &&& table_sliceable(hdu)
    &&& match spec_table_info(data_len, hdu) {
        Ok((n1, n2, cols)) => 0 <= row_index < n2 ==> {
            &&& offsets_fit(cols)
            &&& forall|i: int| 0 <= i < cols.len() ==> cells_fit(data_len, hdu.data_start, n1 as int, 1,
                #[trigger] cols[i], column_offset(cols, i) + row_index * n1)
        },
        Err(_) => true,
    }
}

/// The cells of row `row_index` of a binary table HDU, one per column.
pub open spec fn spec_read_binary_row(data: Seq<u8>, hdu: HduModel, row_index: int)
    -> core::result::Result<Seq<ColumnValues>, Error> {
    match spec_table_info(data.len() as int, hdu) {
        Err(e) => Err(e),
        Ok((n1, n2, cols)) => if row_index >= n2 {
            Err(Error::InvalidValue)
        } else {
            spec_row_cells(data, hdu.data_start, n1 as int, row_index, cols, 0)
        },
    }
}

/// The views of a sequence of column data.
pub open spec fn column_data_view(v: Seq<BinaryColumnData>) -> Seq<ColumnValues> {
    Seq::new(v.len(), |i: int| v[i]@)
}

/// Read all columns for a single row of a binary table.
pub fn read_binary_row(fits_data: &[u8], hdu: &Hdu, row_index: usize) -> (r: Result<Vec<BinaryColumnData>>)
    requires
        row_readable(fits_data@.len() as int, hdu@, row_index as int),
    ensures
        r matches Ok(v) ==> spec_read_binary_row(fits_data@, hdu@, row_index as int)
            == Ok::<Seq<ColumnValues>, Error>(column_data_view(v@)),
        r matches Err(e) ==> spec_read_binary_row(fits_data@, hdu@, row_index as int)
            == Err::<Seq<ColumnValues>, Error>(e),
{
    let (naxis1, naxis2, columns) = extract_table_info(fits_data, hdu)?;
    if row_index >= naxis2 {
        return Err(Error::InvalidValue);
    }
    let ghost cols = binary_columns_view(columns@);
    let ghost start = hdu.data_start as int;
    proof {
        lemma_binary_columns_wf(hdu@.cards, match hdu@.info { HduInfoModel::BinaryTable { tfields, .. } => tfields as nat, _ => 0 });
        lemma_mul_le(row_index as int, naxis2 - 1, naxis1 as int);
    }
    let offsets = column_offsets(&columns);
    let data_start = hdu.data_start;
    let dl = fits_data.len();
    let mut result: Vec<BinaryColumnData> = Vec::new();
    let mut i: usize = 0;
    while i < columns.len()
        invariant
            i <= columns@.len(),
            dl == fits_data@.len(),
            cols == binary_columns_view(columns@),
            spec_table_info(fits_data@.len() as int, hdu@) == Ok::<(usize, usize, Seq<BinaryColumnModel>), Error>((naxis1, naxis2, cols)),
            row_index < naxis2,
            start == data_start,
            data_start == hdu.data_start,
            offsets@.len() == columns@.len(),
            forall|j: int| 0 <= j < offsets@.len() ==> offsets@[j] == column_offset(cols, j),
            forall|j: int| 0 <= j < cols.len() ==> #[trigger] column_wf(cols[j]),
            forall|j: int| 0 <= j < cols.len() ==> cells_fit(fits_data@.len() as int, start, naxis1 as int, 1,
                #[trigger] cols[j], column_offset(cols, j) + row_index * naxis1),
            result@.len() == i,
            spec_row_cells(fits_data@, start, naxis1 as int, row_index as int, cols, 0) ==
                match spec_row_cells(fits_data@, start, naxis1 as int, row_index as int, cols, i as int) {
                    Err(e) => Err(e),
                    Ok(rest) => Ok::<Seq<ColumnValues>, Error>(column_data_view(result@) + rest),
                },
        decreases columns@.len() - i,
    {
        assert(cols[i as int] == columns@[i as int]@);
        assert(cells_fit(fits_data@.len() as int, start, naxis1 as int, 1, cols[i as int], column_offset(cols, i as int) + row_index * naxis1));
        assert(0 * naxis1 == 0);
        assert(row_index * naxis1 >= 0) by (nonlinear_arith);
        let cell_offset = offsets[i] + row_index * naxis1;
        let cell = match read_column_cells(fits_data, data_start, naxis1, 1, &columns[i], cell_offset) {
            Ok(c) => c,
            Err(e) => {
                assert(spec_row_cells(fits_data@, start, naxis1 as int, row_index as int, cols, i as int) == Err::<Seq<ColumnValues>, Error>(e));
                return Err(e);
            },
        };
        let ghost old_result = result@;
        result.push(cell);
        proof {
            assert(column_data_view(result@) =~= column_data_view(old_result) + seq![cell@]);
            match spec_row_cells(fits_data@, start, naxis1 as int, row_index as int, cols, i + 1) {
                Err(e) => {},
                Ok(rest) => {
                    assert(column_data_view(old_result) + (seq![cell@] + rest) =~= column_data_view(result@) + rest);
                },
            }
        }
        i += 1;
    }
    proof {
        assert(column_data_view(result@) + Seq::<ColumnValues>::empty() =~= column_data_view(result@));
    }
    Ok(result)
}


// ── Serializing cells ──

/// The byte strings `f(0)`, ..., `f(n - 1)`, one after another.
pub open spec fn joined(n: nat, f: spec_fn(int) -> Seq<u8>) -> Seq<u8>
    decreases n,
{
    if n == 0 {
        Seq::empty()
    } else {
        joined((n - 1) as nat, f) + f(n - 1)
    }
}

/// Element `i` of a cell of 16-bit integers starting at `s`, big-endian.
pub open spec fn short_elem(v: Seq<i16>, s: int) -> spec_fn(int) -> Seq<u8> {
    |i: int| be_bytes(to_unsigned(v[s + i] as int, 16), 2)
}

/// Element `i` of a cell of 32-bit integers starting at `s`, big-endian.
pub open spec fn int_elem(v: Seq<i32>, s: int) -> spec_fn(int) -> Seq<u8> {
    |i: int| be_bytes(to_unsigned(v[s + i] as int, 32), 4)
}

/// Element `i` of a cell of 64-bit integers starting at `s`, big-endian.
pub open spec fn long_elem(v: Seq<i64>, s: int) -> spec_fn(int) -> Seq<u8> {
    |i: int| be_bytes(to_unsigned(v[s + i] as int, 64), 8)
}

/// Element `i` of a cell of 32-bit patterns starting at `s`, big-endian.
pub open spec fn word_elem(v: Seq<u32>, s: int) -> spec_fn(int) -> Seq<u8> {
    |i: int| be_bytes(v[s + i] as int, 4)
}

/// Element `i` of a cell of 64-bit patterns starting at `s`, big-endian.
pub open spec fn dword_elem(v: Seq<u64>, s: int) -> spec_fn(int) -> Seq<u8> {
    |i: int| be_bytes(v[s + i] as int, 8)
}

/// Element `i` of a cell of pairs of 32-bit patterns starting at `s`.
pub open spec fn word_pair_elem(v: Seq<(u32, u32)>, s: int) -> spec_fn(int) -> Seq<u8> {
    |i: int| be_bytes(v[s + i].0 as int, 4) + be_bytes(v[s + i].1 as int, 4)
}

/// Element `i` of a cell of pairs of 64-bit patterns starting at `s`.
pub open spec fn dword_pair_elem(v: Seq<(u64, u64)>, s: int) -> spec_fn(int) -> Seq<u8> {
    |i: int| be_bytes(v[s + i].0 as int, 8) + be_bytes(v[s + i].1 as int, 8)
}

/// The bytes of a text cell of `repeat` bytes: the UTF-8 bytes of the text,
/// cut to `repeat`, then spaces.
pub open spec fn ascii_cell_bytes(text: Seq<char>, repeat: nat) -> Seq<u8> {
    let b = encode_utf8(text);
    let n = if b.len() < repeat { b.len() } else { repeat };
    b.subrange(0, n as int) + Seq::new((repeat - n) as nat, |i: int| 32u8)
}

/// The bytes of the cell in row `row` of a column of type `t` holding
/// `repeat` elements per row; the data must be of the column's type.
pub open spec fn spec_cell_bytes(t: BinaryColumnType, repeat: nat, data: ColumnValues, row: int)
    -> core::result::Result<Seq<u8>, Error> {
    let s = row * repeat;
    match (t, data) {
        (BinaryColumnType::Logical, ColumnValues::Logical(v)) => Ok(Seq::new(repeat, |i: int| if v[s + i] { 84u8 } else { 70u8 })),
        (BinaryColumnType::Byte, ColumnValues::Byte(v)) => Ok(v.subrange(s, s + repeat)),
        (BinaryColumnType::Short, ColumnValues::Short(v)) => Ok(joined(repeat, short_elem(v, s))),
        (BinaryColumnType::Int, ColumnValues::Int(v)) => Ok(joined(repeat, int_elem(v, s))),
        (BinaryColumnType::Long, ColumnValues::Long(v)) => Ok(joined(repeat, long_elem(v, s))),
        (BinaryColumnType::Float, ColumnValues::Float(v)) => Ok(joined(repeat, word_elem(v, s))),
        (BinaryColumnType::Double, ColumnValues::Double(v)) => Ok(joined(repeat, dword_elem(v, s))),
        (BinaryColumnType::ComplexFloat, ColumnValues::ComplexFloat(v)) => Ok(joined(repeat, word_pair_elem(v, s))),
        (BinaryColumnType::ComplexDouble, ColumnValues::ComplexDouble(v)) => Ok(joined(repeat, dword_pair_elem(v, s))),
        (BinaryColumnType::Ascii, ColumnValues::Ascii(v)) => Ok(ascii_cell_bytes(v[row], repeat)),
        (BinaryColumnType::Bit, ColumnValues::Bit(v)) => Ok(v[row]),
        _ => Err(Error::InvalidValue),
    }
}

/// The number of values a column's data holds (rows for text and bits,
/// elements otherwise).
pub open spec fn values_len(data: ColumnValues) -> nat {
    match data {
        ColumnValues::Logical(v) => v.len(),
        ColumnValues::Byte(v) => v.len(),
        ColumnValues::Short(v) => v.len(),
        ColumnValues::Int(v) => v.len(),
        ColumnValues::Long(v) => v.len(),
        ColumnValues::Float(v) => v.len(),
        ColumnValues::Double(v) => v.len(),
        ColumnValues::ComplexFloat(v) => v.len(),
        ColumnValues::ComplexDouble(v) => v.len(),
        ColumnValues::Ascii(v) => v.len(),
        ColumnValues::Bit(v) => v.len(),
    }
}

/// The data holds the values of row `row`: `repeat` elements from
/// `row * repeat` on, or the row's entry for text and bits.
pub open spec fn cell_in_data(repeat: nat, data: ColumnValues, row: int) -> bool {
    &&& 0 <= row
    &&& match data {
        ColumnValues::Ascii(v) => row < v.len(),
        ColumnValues::Bit(v) => row < v.len(),
        _ => (row + 1) * repeat <= values_len(data),
    }
}

/// The bytes of `repeat` logical elements from `start` on: `T` or `F`.
fn logical_cell(vals: &[bool], start: usize, repeat: usize) -> (r: Vec<u8>)
    requires
        start + repeat <= vals@.len(),
    ensures
        r@ == Seq::new(repeat as nat, |i: int| if vals@[start + i] { 84u8 } else { 70u8 }),
{
    let vl = vals.len();
    let mut out: Vec<u8> = Vec::new();
    let mut i: usize = 0;
    while i < repeat
        invariant
            i <= repeat,
            vl == vals@.len(),
            start + repeat <= vals@.len(),
            out@ == Seq::new(i as nat, |j: int| if vals@[start + j] { 84u8 } else { 70u8 }),
        decreases repeat - i,
    {
        out.push(if vals[start + i] { 84u8 } else { 70u8 });
        i += 1;
        assert(out@ =~= Seq::new(i as nat, |j: int| if vals@[start + j] { 84u8 } else { 70u8 }));
    }
    out
}

/// The big-endian bytes of `repeat` 16-bit integers from `start` on.
fn short_cell(vals: &[i16], start: usize, repeat: usize) -> (r: Vec<u8>)
    requires
        start + repeat <= vals@.len(),
    ensures
        r@ == joined(repeat as nat, short_elem(vals@, start as int)),
{
    proof { lemma_pow256_values(); }
    let vl = vals.len();
    let mut out: Vec<u8> = Vec::new();
    let mut i: usize = 0;
    while i < repeat
        invariant
            i <= repeat,
            vl == vals@.len(),
            start + repeat <= vals@.len(),
            pow256(2) == 65536,
            out@ == joined(i as nat, short_elem(vals@, start as int)),
        decreases repeat - i,
    {
        let v = vals[start + i];
        let u: u64 = if v >= 0 { v as u64 } else { (v as i32 + 65536) as u64 };
        push_be(&mut out, u, 2);
        i += 1;
    }
    out
}

/// The big-endian bytes of `repeat` 32-bit integers from `start` on.
fn int_cell(vals: &[i32], start: usize, repeat: usize) -> (r: Vec<u8>)
    requires
        start + repeat <= vals@.len(),
    ensures
        r@ == joined(repeat as nat, int_elem(vals@, start as int)),
{
    proof { lemma_pow256_values(); }
    let vl = vals.len();
    let mut out: Vec<u8> = Vec::new();
    let mut i: usize = 0;
    while i < repeat
        invariant
            i <= repeat,
            vl == vals@.len(),
            start + repeat <= vals@.len(),
            pow256(4) == 4294967296,
            out@ == joined(i as nat, int_elem(vals@, start as int)),
        decreases repeat - i,
    {
        let v = vals[start + i];
        let u: u64 = if v >= 0 { v as u64 } else { (v as i64 + 4294967296) as u64 };
        push_be(&mut out, u, 4);
        i += 1;
    }
    out
}

/// The big-endian bytes of `repeat` 64-bit integers from `start` on.
fn long_cell(vals: &[i64], start: usize, repeat: usize) -> (r: Vec<u8>)
    requires
        start + repeat <= vals@.len(),
    ensures
        r@ == joined(repeat as nat, long_elem(vals@, start as int)),
{
    proof { lemma_pow256_values(); }
    let vl = vals.len();
    let mut out: Vec<u8> = Vec::new();
    let mut i: usize = 0;
    while i < repeat
        invariant
            i <= repeat,
            vl == vals@.len(),
            start + repeat <= vals@.len(),
            pow256(8) == 18446744073709551616,
            out@ == joined(i as nat, long_elem(vals@, start as int)),
        decreases repeat - i,
    {
        let v = vals[start + i];
        let u: u64 = if v >= 0 { v as u64 } else { (v - i64::MIN) as u64 + 9223372036854775808u64 };
        push_be(&mut out, u, 8);
        i += 1;
    }
    out
}

/// The big-endian bytes of `repeat` 32-bit patterns from `start` on.
fn word_cell(vals: &[u32], start: usize, repeat: usize) -> (r: Vec<u8>)
    requires
        start + repeat <= vals@.len(),
    ensures
        r@ == joined(repeat as nat, word_elem(vals@, start as int)),
{
    proof { lemma_pow256_values(); }
    let vl = vals.len();
    let mut out: Vec<u8> = Vec::new();
    let mut i: usize = 0;
    while i < repeat
        invariant
            i <= repeat,
            vl == vals@.len(),
            start + repeat <= vals@.len(),
            pow256(4) == 4294967296,
            out@ == joined(i as nat, word_elem(vals@, start as int)),
        decreases repeat - i,
    {
        push_be(&mut out, vals[start + i] as u64, 4);
        i += 1;
    }
    out
}

/// The big-endian bytes of `repeat` 64-bit patterns from `start` on.
fn dword_cell(vals: &[u64], start: usize, repeat: usize) -> (r: Vec<u8>)
    requires
        start + repeat <= vals@.len(),
    ensures
        r@ == joined(repeat as nat, dword_elem(vals@, start as int)),
{
    proof { lemma_pow256_values(); }
    let vl = vals.len();
    let mut out: Vec<u8> = Vec::new();
    let mut i: usize = 0;
    while i < repeat
        invariant
            i <= repeat,
            vl == vals@.len(),
            start + repeat <= vals@.len(),
            pow256(8) == 18446744073709551616,
            out@ == joined(i as nat, dword_elem(vals@, start as int)),
        decreases repeat - i,
    {
        push_be(&mut out, vals[start + i], 8);
        i += 1;
    }
    out
}

/// The big-endian bytes of `repeat` pairs of 32-bit patterns from `start` on.
fn word_pair_cell(vals: &[(u32, u32)], start: usize, repeat: usize) -> (r: Vec<u8>)
    requires
        start + repeat <= vals@.len(),
    ensures
        r@ == joined(repeat as nat, word_pair_elem(vals@, start as int)),
{
    proof { lemma_pow256_values(); }
    let vl = vals.len();
    let mut out: Vec<u8> = Vec::new();
    let mut i: usize = 0;
    while i < repeat
        invariant
            i <= repeat,
            vl == vals@.len(),
            start + repeat <= vals@.len(),
            pow256(4) == 4294967296,
            out@ == joined(i as nat, word_pair_elem(vals@, start as int)),
        decreases repeat - i,
    {
        let (re, im) = vals[start + i];
        let ghost before = out@;
        push_be(&mut out, re as u64, 4);
        push_be(&mut out, im as u64, 4);
        i += 1;
        assert(out@ =~= before + (be_bytes(re as int, 4) + be_bytes(im as int, 4)));
    }
    out
}

/// The big-endian bytes of `repeat` pairs of 64-bit patterns from `start` on.
fn dword_pair_cell(vals: &[(u64, u64)], start: usize, repeat: usize) -> (r: Vec<u8>)
    requires
        start + repeat <= vals@.len(),
    ensures
        r@ == joined(repeat as nat, dword_pair_elem(vals@, start as int)),
{
    proof { lemma_pow256_values(); }
    let vl = vals.len();
    let mut out: Vec<u8> = Vec::new();
    let mut i: usize = 0;
    while i < repeat
        invariant
            i <= repeat,
            vl == vals@.len(),
            start + repeat <= vals@.len(),
            pow256(8) == 18446744073709551616,
            out@ == joined(i as nat, dword_pair_elem(vals@, start as int)),
        decreases repeat - i,
    {
        let (re, im) = vals[start + i];
        let ghost before = out@;
        push_be(&mut out, re, 8);
        push_be(&mut out, im, 8);
        i += 1;
        assert(out@ =~= before + (be_bytes(re as int, 8) + be_bytes(im as int, 8)));
    }
    out
}

/// The bytes of a text cell: the text's UTF-8 bytes cut to `repeat`, then
/// spaces.
fn ascii_cell_exec(text: &String, repeat: usize) -> (r: Vec<u8>)
    ensures
        r@ == ascii_cell_bytes(text@, repeat as nat),
{
    let b = text.as_str().as_bytes();
    let n = if b.len() < repeat { b.len() } else { repeat };
    let mut out: Vec<u8> = Vec::new();
    let mut i: usize = 0;
    while i < n
        invariant
            i <= n,
            n <= b@.len(),
            out@ == b@.subrange(0, i as int),
        decreases n - i,
    {
        out.push(b[i]);
        i += 1;
        assert(out@ =~= b@.subrange(0, i as int));
    }
    let ghost head = out@;
    while i < repeat
        invariant
            n <= i <= repeat,
            out@ == head + Seq::new((i - n) as nat, |k: int| 32u8),
        decreases repeat - i,
    {
        out.push(32u8);
        i += 1;
        assert(out@ =~= head + Seq::new((i - n) as nat, |k: int| 32u8));
    }
    out
}

/// Serialize a single cell (one column, one row) to big-endian bytes.
///
/// The data must be of the column's type (`InvalidValue` otherwise).
pub fn serialize_binary_column_value(
    col_type: &BinaryColumnType,
    repeat: usize,
    data: &BinaryColumnData,
    row_index: usize,
) -> (r: Result<Vec<u8>>)
    requires
        types_match(*col_type, data@) ==> cell_in_data(repeat as nat, data@, row_index as int),
    ensures
        r matches Ok(b) ==> spec_cell_bytes(*col_type, repeat as nat, data@, row_index as int) == Ok::<Seq<u8>, Error>(b@),
        r matches Err(e) ==> spec_cell_bytes(*col_type, repeat as nat, data@, row_index as int) == Err::<Seq<u8>, Error>(e),
{
    proof {
        assert(row_index * repeat + repeat == (row_index + 1) * repeat) by (nonlinear_arith);
        assert(row_index * repeat >= 0) by (nonlinear_arith);
    }
    let n = match data {
        BinaryColumnData::Logical(v) => v.len(),
        BinaryColumnData::Byte(v) => v.len(),
        BinaryColumnData::Short(v) => v.len(),
        BinaryColumnData::Int(v) => v.len(),
        BinaryColumnData::Long(v) => v.len(),
        BinaryColumnData::Float(v) => v.len(),
        BinaryColumnData::Double(v) => v.len(),
        BinaryColumnData::ComplexFloat(v) => v.len(),
        BinaryColumnData::ComplexDouble(v) => v.len(),
        BinaryColumnData::Ascii(v) => v.len(),
        BinaryColumnData::Bit(v) => v.len(),
    };
    assert(n == values_len(data@));
    match (col_type, data) {
        (BinaryColumnType::Logical, BinaryColumnData::Logical(vals)) => {
            Ok(logical_cell(vals.as_slice(), row_index * repeat, repeat))
        },
        (BinaryColumnType::Byte, BinaryColumnData::Byte(vals)) => {
            let start = row_index * repeat;
            Ok(vstd::slice::slice_to_vec(vstd::slice::slice_subrange(vals.as_slice(), start, start + repeat)))
        },
        (BinaryColumnType::Short, BinaryColumnData::Short(vals)) => Ok(short_cell(vals.as_slice(), row_index * repeat, repeat)),
        (BinaryColumnType::Int, BinaryColumnData::Int(vals)) => Ok(int_cell(vals.as_slice(), row_index * repeat, repeat)),
        (BinaryColumnType::Long, BinaryColumnData::Long(vals)) => Ok(long_cell(vals.as_slice(), row_index * repeat, repeat)),
        (BinaryColumnType::Float, BinaryColumnData::Float(vals)) => Ok(word_cell(vals.as_slice(), row_index * repeat, repeat)),
        (BinaryColumnType::Double, BinaryColumnData::Double(vals)) => Ok(dword_cell(vals.as_slice(), row_index * repeat, repeat)),
        (BinaryColumnType::ComplexFloat, BinaryColumnData::ComplexFloat(vals)) => {
            Ok(word_pair_cell(vals.as_slice(), row_index * repeat, repeat))
        },
        (BinaryColumnType::ComplexDouble, BinaryColumnData::ComplexDouble(vals)) => {
            Ok(dword_pair_cell(vals.as_slice(), row_index * repeat, repeat))
        },
        (BinaryColumnType::Ascii, BinaryColumnData::Ascii(vals)) => Ok(ascii_cell_exec(&vals[row_index], repeat)),
        (BinaryColumnType::Bit, BinaryColumnData::Bit(vals)) => Ok(vstd::slice::slice_to_vec(vals[row_index].as_slice())),
        _ => Err(Error::InvalidValue),
    }
}


// ── Table headers ──

/// The TFORM letter of each column type.
pub open spec fn type_code(t: BinaryColumnType) -> u8 {
    match t {
        BinaryColumnType::Logical => 76u8,
        BinaryColumnType::Bit => 88u8,
        BinaryColumnType::Byte => 66u8,
        BinaryColumnType::Short => 73u8,
        BinaryColumnType::Int => 74u8,
        BinaryColumnType::Long => 75u8,
        BinaryColumnType::Float => 69u8,
        BinaryColumnType::Double => 68u8,
        BinaryColumnType::ComplexFloat => 67u8,
        BinaryColumnType::ComplexDouble => 77u8,
        BinaryColumnType::Ascii => 65u8,
        BinaryColumnType::VarArrayP => 80u8,
        BinaryColumnType::VarArrayQ => 81u8,
    }
}

/// The TFORM text of a column: the repeat count in decimal, then the type
/// letter.
pub open spec fn tform_text(repeat: nat, t: BinaryColumnType) -> Seq<char> {
    ascii_chars(nat_digits(repeat).push(type_code(t)))
}

/// The TFORM value for `repeat` elements of type `col_type`.
fn tform_string(repeat: usize, col_type: &BinaryColumnType) -> (r: String)
    ensures
        r@ == tform_text(repeat as nat, *col_type),
{
    let ch: u8 = match col_type {
        BinaryColumnType::Logical => 76u8,
        BinaryColumnType::Bit => 88u8,
        BinaryColumnType::Byte => 66u8,
        BinaryColumnType::Short => 73u8,
        BinaryColumnType::Int => 74u8,
        BinaryColumnType::Long => 75u8,
        BinaryColumnType::Float => 69u8,
        BinaryColumnType::Double => 68u8,
        BinaryColumnType::ComplexFloat => 67u8,
        BinaryColumnType::ComplexDouble => 77u8,
        BinaryColumnType::Ascii => 65u8,
        BinaryColumnType::VarArrayP => 80u8,
        BinaryColumnType::VarArrayQ => 81u8,
    };
    let mut b = u64_decimal(repeat as u64);
    b.push(ch);
    string_from_bytes(b.as_slice())
}

/// A card with a keyword and a value and no comment.
pub open spec fn value_card(keyword: Seq<u8>, value: ValueModel) -> CardModel {
    CardModel { keyword, value: Some(value), comment: None }
}

/// The TFORMn card and, for a named column, the TTYPEn card of column `n`
/// (1-based).
pub open spec fn column_cards(col: BinaryColumnModel, n: nat) -> Seq<CardModel> {
    seq![value_card(indexed_keyword(tform_name(), n), ValueModel::Str(tform_text(col.repeat as nat, col.col_type)))]
        + match col.name {
            Some(name) => seq![value_card(indexed_keyword(ttype_name(), n), ValueModel::Str(name))],
            None => Seq::empty(),
        }
}

/// The column cards of the first `k` columns.
pub open spec fn columns_cards(cols: Seq<BinaryColumnModel>, k: nat) -> Seq<CardModel>
    decreases k,
{
    if k == 0 {
        Seq::empty()
    } else {
        columns_cards(cols, (k - 1) as nat) + column_cards(cols[k - 1], k)
    }
}

/// The header cards of a binary table with these columns.
pub open spec fn spec_binary_table_cards(cols: Seq<BinaryColumnModel>, naxis2: usize, pcount: usize) -> Seq<CardModel> {
    seq![
        value_card(StandardKeyword::Xtension.spec_keyword(), ValueModel::Str("BINTABLE"@)),
        value_card(StandardKeyword::Bitpix.spec_keyword(), ValueModel::Integer(8)),
        value_card(StandardKeyword::Naxis.spec_keyword(), ValueModel::Integer(2)),
        value_card(StandardKeyword::Naxis1.spec_keyword(), ValueModel::Integer((column_offset(cols, cols.len() as int) as usize as i64) as int)),
        value_card(StandardKeyword::Naxis2.spec_keyword(), ValueModel::Integer((naxis2 as i64) as int)),
        value_card(StandardKeyword::Pcount.spec_keyword(), ValueModel::Integer((pcount as i64) as int)),
        value_card(StandardKeyword::Gcount.spec_keyword(), ValueModel::Integer(1)),
        value_card(StandardKeyword::Tfields.spec_keyword(), ValueModel::Integer((cols.len() as i64) as int)),
    ] + columns_cards(cols, cols.len())
}

/// A card with a keyword and a value and no comment.
fn make_card(keyword: [u8; 8], value: Value) -> (r: Card)
    ensures
        r@ == value_card(keyword@, value@),
{
    Card { keyword, value: Some(value), comment: None }
}

/// The row width of a table: the sum of its columns' widths.
fn row_width(columns: &[BinaryColumnDescriptor]) -> (r: usize)
    requires
        offsets_fit(binary_columns_view(columns@)),
    ensures
        r == column_offset(binary_columns_view(columns@), columns@.len() as int),
{
    let ghost cv = binary_columns_view(columns@);
    proof { lemma_column_offset_mono(cv, columns@.len() as int); }
    let mut w: usize = 0;
    let mut i: usize = 0;
    while i < columns.len()
        invariant
            i <= columns@.len(),
            cv == binary_columns_view(columns@),
            w == column_offset(cv, i as int),
            forall|j: int| 0 <= j <= columns@.len() ==> #[trigger] column_offset(cv, j) <= column_offset(cv, columns@.len() as int),
            column_offset(cv, columns@.len() as int) <= usize::MAX,
        decreases columns@.len() - i,
    {
        assert(cv[i as int].byte_width == columns@[i as int].byte_width);
        assert(column_offset(cv, i + 1) <= column_offset(cv, columns@.len() as int));
        w = w + columns[i].byte_width;
        i += 1;
    }
    w
}

/// Build the full set of header cards for a binary table extension.
pub fn build_binary_table_cards(columns: &[BinaryColumnDescriptor], naxis2: usize, pcount: usize) -> (r: Result<Vec<Card>>)
    requires
        offsets_fit(binary_columns_view(columns@)),
    ensures
        r matches Ok(cs) && cards_view(cs@) == spec_binary_table_cards(binary_columns_view(columns@), naxis2, pcount),
{
    let ghost cv = binary_columns_view(columns@);
    let naxis1 = row_width(columns);
    let tfields = columns.len();
    let mut cards: Vec<Card> = Vec::new();
    cards.push(make_card(StandardKeyword::Xtension.keyword(), Value::String(ExtensionType::BinaryTable.as_str().to_owned())));
    cards.push(make_card(StandardKeyword::Bitpix.keyword(), Value::Integer(8)));
    cards.push(make_card(StandardKeyword::Naxis.keyword(), Value::Integer(2)));
    cards.push(make_card(StandardKeyword::Naxis1.keyword(), Value::Integer(naxis1 as i64)));
    cards.push(make_card(StandardKeyword::Naxis2.keyword(), Value::Integer(naxis2 as i64)));
    cards.push(make_card(StandardKeyword::Pcount.keyword(), Value::Integer(pcount as i64)));
    cards.push(make_card(StandardKeyword::Gcount.keyword(), Value::Integer(1)));
    cards.push(make_card(StandardKeyword::Tfields.keyword(), Value::Integer(tfields as i64)));
    let ghost head = cards_view(cards@);
    assert(head =~= spec_binary_table_cards(cv, naxis2, pcount).subrange(0, 8));
    let tform = [84u8, 70u8, 79u8, 82u8, 77u8];
    let ttype = [84u8, 84u8, 89u8, 80u8, 69u8];
    assert(tform@ =~= tform_name());
    assert(ttype@ =~= ttype_name());
    let mut i: usize = 0;
    while i < columns.len()
        invariant
            i <= columns@.len(),
            cv == binary_columns_view(columns@),
            tform@ == tform_name(),
            ttype@ == ttype_name(),
            cards_view(cards@) == head + columns_cards(cv, i as nat),
        decreases columns@.len() - i,
    {
        let col = &columns[i];
        let n = i + 1;
        let ghost before = cards_view(cards@);
        cards.push(make_card(indexed_keyword_exec(&tform, n as u64), Value::String(tform_string(col.repeat, &col.col_type))));
        match &col.name {
            Some(name) => {
                cards.push(make_card(indexed_keyword_exec(&ttype, n as u64), Value::String(name.clone())));
            },
            None => {},
        }
        proof {
            assert(cv[i as int] == columns@[i as int]@);
            assert(cards_view(cards@) =~= before + column_cards(cv[i as int], n as nat));
        }
        i += 1;
    }
    Ok(cards)
}


// ── Table data ──

/// The column data is of the column's type.
pub open spec fn types_match(t: BinaryColumnType, data: ColumnValues) -> bool {
    match (t, data) {
        (BinaryColumnType::Logical, ColumnValues::Logical(_)) => true,
        (BinaryColumnType::Byte, ColumnValues::Byte(_)) => true,
        (BinaryColumnType::Short, ColumnValues::Short(_)) => true,
        (BinaryColumnType::Int, ColumnValues::Int(_)) => true,
        (BinaryColumnType::Long, ColumnValues::Long(_)) => true,
        (BinaryColumnType::Float, ColumnValues::Float(_)) => true,
        (BinaryColumnType::Double, ColumnValues::Double(_)) => true,
        (BinaryColumnType::ComplexFloat, ColumnValues::ComplexFloat(_)) => true,
        (BinaryColumnType::ComplexDouble, ColumnValues::ComplexDouble(_)) => true,
        (BinaryColumnType::Ascii, ColumnValues::Ascii(_)) => true,
        (BinaryColumnType::Bit, ColumnValues::Bit(_)) => true,
        _ => false,
    }
}

/// `buf` with `cell` written from `pos` on.
pub open spec fn splice(buf: Seq<u8>, pos: int, cell: Seq<u8>) -> Seq<u8> {
    buf.subrange(0, pos) + cell + buf.subrange(pos + cell.len(), buf.len() as int)
}

/// `buf` after writing the cells of columns `0..k` of row `row`.
pub open spec fn fill_row(buf: Seq<u8>, cols: Seq<BinaryColumnModel>, data: Seq<ColumnValues>, naxis1: int, row: int, k: nat)
    -> Seq<u8>
    decreases k,
{
    if k == 0 {
        buf
    } else {
        let b = fill_row(buf, cols, data, naxis1, row, (k - 1) as nat);
        match spec_cell_bytes(cols[k - 1].col_type, cols[k - 1].repeat as nat, data[k - 1], row) {
            Ok(cell) => splice(b, row * naxis1 + column_offset(cols, k - 1), cell),
            Err(_) => b,
        }
    }
}

/// `buf` after writing every cell of rows `0..n`, row after row.
pub open spec fn fill_rows(buf: Seq<u8>, cols: Seq<BinaryColumnModel>, data: Seq<ColumnValues>, naxis1: int, n: nat)
    -> Seq<u8>
    decreases n,
{
    if n == 0 {
        buf
    } else {
        fill_row(fill_rows(buf, cols, data, naxis1, (n - 1) as nat), cols, data, naxis1, n - 1, cols.len())
    }
}

/// The padded data of a binary table: `naxis2` rows of the columns' cells,
/// zeros elsewhere, in whole blocks. Data of another type than its column
/// (in a table with rows), or a different number of data than columns,
/// gives `InvalidValue`.
pub open spec fn spec_serialize_binary_table(cols: Seq<BinaryColumnModel>, data: Seq<ColumnValues>, naxis2: nat)
    -> core::result::Result<Seq<u8>, Error> {
    let naxis1 = column_offset(cols, cols.len() as int);
    if cols.len() != data.len() || (naxis2 > 0 && exists|k: int| 0 <= k < cols.len() && !types_match(cols[k].col_type, #[trigger] data[k])) {
        Err(Error::InvalidValue)
    } else {
        Ok(fill_rows(Seq::new(spec_padded_len(naxis1 * naxis2) as nat, |i: int| 0u8), cols, data, naxis1, naxis2))
    }
}

/// Writing the table neither indexes past the data nor writes past the
/// buffer, and its sizes fit in a `usize`.
pub open spec fn table_writable(cols: Seq<BinaryColumnModel>, data: Seq<ColumnValues>, naxis2: nat) -> bool {
    let naxis1 = column_offset(cols, cols.len() as int);
    &&& offsets_fit(cols)
    &&& spec_padded_len(naxis1 * naxis2) <= usize::MAX
    &&& cols.len() == data.len() ==> forall|row: int, k: int| 0 <= row < naxis2 && 0 <= k < cols.len()
        && types_match(cols[k].col_type, data[k]) ==> {
            &&& cell_in_data(cols[k].repeat as nat, data[k], row)
            &&& row * naxis1 + column_offset(cols, k) + (#[trigger] spec_cell_bytes(cols[k].col_type, cols[k].repeat as nat, data[k], row))->Ok_0.len()
                <= spec_padded_len(naxis1 * naxis2)
        }
}

/// Write `cell` into `buf` from `pos` on.
pub(crate) fn write_cell(buf: &mut Vec<u8>, pos: usize, cell: &[u8])
    requires
        pos + cell@.len() <= old(buf)@.len(),
    ensures
        final(buf)@ == splice(old(buf)@, pos as int, cell@),
{
    let ghost start = buf@;
    let n = buf.len();
    let mut j: usize = 0;
    while j < cell.len()
        invariant
            j <= cell@.len(),
            n == start.len(),
            pos + cell@.len() <= start.len(),
            buf@.len() == start.len(),
            forall|i: int| 0 <= i < pos ==> buf@[i] == start[i],
            forall|i: int| pos <= i < pos + j ==> buf@[i] == cell@[i - pos],
            forall|i: int| pos + j <= i < start.len() ==> buf@[i] == start[i],
        decreases cell@.len() - j,
    {
        buf.set(pos + j, cell[j]);
        j += 1;
    }
    assert(buf@ =~= splice(start, pos as int, cell@));
}

/// Whether a column's data holds one cell for each of `rows` rows.
pub open spec fn cells_cover(values: ColumnValues, repeat: nat, rows: nat) -> bool {
    match values {
        ColumnValues::Ascii(v) => v.len() == rows,
        ColumnValues::Bit(v) => v.len() == rows,
        _ => values_len(values) == rows * repeat,
    }
}

/// `buf` after writing the cells of rows `0..k` of a column whose cell of
/// row `row` starts at `start + row * naxis1 + col_offset`; a cell that
/// cannot be made, or that runs past the buffer, is an error.
pub open spec fn fill_column(
    buf: Seq<u8>, t: BinaryColumnType, repeat: nat, values: ColumnValues, start: int, naxis1: int, col_offset: int, k: nat,
) -> core::result::Result<Seq<u8>, Error>
    decreases k,
{
    if k == 0 {
        Ok(buf)
    } else {
        match fill_column(buf, t, repeat, values, start, naxis1, col_offset, (k - 1) as nat) {
            Err(e) => Err(e),
            Ok(b) => match spec_cell_bytes(t, repeat, values, k - 1) {
                Err(e) => Err(e),
                Ok(cell) => if row_base(start, naxis1, col_offset, k - 1) + cell.len() <= b.len() {
                    Ok(splice(b, row_base(start, naxis1, col_offset, k - 1), cell))
                } else {
                    Err(Error::InvalidValue)
                },
            },
        }
    }
}

/// Once writing a column's cells fails, writing more rows fails the same
/// way.
proof fn lemma_fill_column_err(
    buf: Seq<u8>, t: BinaryColumnType, repeat: nat, values: ColumnValues, start: int, naxis1: int, col_offset: int, k: nat, m: nat,
)
    requires
        k <= m,
        fill_column(buf, t, repeat, values, start, naxis1, col_offset, k) is Err,
    ensures
        fill_column(buf, t, repeat, values, start, naxis1, col_offset, m)
            == fill_column(buf, t, repeat, values, start, naxis1, col_offset, k),
    decreases m - k,
{
    if k < m {
        lemma_fill_column_err(buf, t, repeat, values, start, naxis1, col_offset, k, (m - 1) as nat);
    }
}

/// The bytes of a FITS stream after writing `values` into every row of
/// column `col_index` of a binary table HDU: data of another type than the
/// column, or not one cell per row, is `InvalidValue`.
pub open spec fn spec_write_binary_column(data: Seq<u8>, hdu: HduModel, col_index: int, values: ColumnValues)
    -> core::result::Result<Seq<u8>, Error> {
    match spec_table_info(data.len() as int, hdu) {
        Err(e) => Err(e),
        Ok((n1, n2, cols)) => if col_index >= cols.len() || !types_match(cols[col_index].col_type, values)
            || !cells_cover(values, cols[col_index].repeat as nat, n2 as nat) {
            Err(Error::InvalidValue)
        } else {
            fill_column(data, cols[col_index].col_type, cols[col_index].repeat as nat, values, hdu.data_start, n1 as int,
                column_offset(cols, col_index), n2 as nat)
        },
    }
}

/// The number of cells a column's data holds (rows for text and bits,
/// elements otherwise).
fn values_count(values: &BinaryColumnData) -> (r: usize)
    ensures
        match values@ {
            ColumnValues::Ascii(v) => r == v.len(),
            ColumnValues::Bit(v) => r == v.len(),
            _ => r == values_len(values@),
        },
{
    match values {
        BinaryColumnData::Logical(v) => v.len(),
        BinaryColumnData::Byte(v) => v.len(),
        BinaryColumnData::Short(v) => v.len(),
        BinaryColumnData::Int(v) => v.len(),
        BinaryColumnData::Long(v) => v.len(),
        BinaryColumnData::Float(v) => v.len(),
        BinaryColumnData::Double(v) => v.len(),
        BinaryColumnData::ComplexFloat(v) => v.len(),
        BinaryColumnData::ComplexDouble(v) => v.len(),
        BinaryColumnData::Ascii(v) => v.len(),
        BinaryColumnData::Bit(v) => v.len(),
    }
}

/// Whether data of type `values` can fill a column of type `t`.
fn types_match_exec(t: &BinaryColumnType, values: &BinaryColumnData) -> (r: bool)
    ensures
        r == types_match(*t, values@),
{
    match (t, values) {
        (BinaryColumnType::Logical, BinaryColumnData::Logical(_)) => true,
        (BinaryColumnType::Byte, BinaryColumnData::Byte(_)) => true,
        (BinaryColumnType::Short, BinaryColumnData::Short(_)) => true,
        (BinaryColumnType::Int, BinaryColumnData::Int(_)) => true,
        (BinaryColumnType::Long, BinaryColumnData::Long(_)) => true,
        (BinaryColumnType::Float, BinaryColumnData::Float(_)) => true,
        (BinaryColumnType::Double, BinaryColumnData::Double(_)) => true,
        (BinaryColumnType::ComplexFloat, BinaryColumnData::ComplexFloat(_)) => true,
        (BinaryColumnType::ComplexDouble, BinaryColumnData::ComplexDouble(_)) => true,
        (BinaryColumnType::Ascii, BinaryColumnData::Ascii(_)) => true,
        (BinaryColumnType::Bit, BinaryColumnData::Bit(_)) => true,
        _ => false,
    }
}

/// Write `values` into every row of column `col_index` of a binary table
/// HDU, giving the new bytes of the FITS stream.
pub fn write_binary_column(fits_data: &[u8], hdu: &Hdu, col_index: usize, values: &BinaryColumnData) -> (r: Result<Vec<u8>>)
    requires
        column_readable(fits_data@.len() as int, hdu@, col_index as int),
    ensures
        r matches Ok(b) ==> spec_write_binary_column(fits_data@, hdu@, col_index as int, values@) == Ok::<Seq<u8>, Error>(b@),
        r matches Err(e) ==> spec_write_binary_column(fits_data@, hdu@, col_index as int, values@) == Err::<Seq<u8>, Error>(e),
{
    let dlen = fits_data.len();
    let (naxis1, naxis2, columns) = extract_table_info(fits_data, hdu)?;
    if col_index >= columns.len() {
        return Err(Error::InvalidValue);
    }
    let ghost cv = binary_columns_view(columns@);
    proof {
        lemma_binary_columns_wf(hdu@.cards, match hdu@.info { HduInfoModel::BinaryTable { tfields, .. } => tfields as nat, _ => 0 });
        assert(cv[col_index as int] == columns@[col_index as int]@);
    }
    let col = &columns[col_index];
    if !types_match_exec(&col.col_type, values) {
        return Err(Error::InvalidValue);
    }
    let count = values_count(values);
    let covers = match values {
        BinaryColumnData::Ascii(_) | BinaryColumnData::Bit(_) => count == naxis2,
        _ => match naxis2.checked_mul(col.repeat) {
            Some(n) => count == n,
            None => false,
        },
    };
    if !covers {
        return Err(Error::InvalidValue);
    }
    let offsets = column_offsets(&columns);
    let col_offset = offsets[col_index];
    let ghost rep = col.repeat as nat;
    let mut buf: Vec<u8> = Vec::new();
    buf.extend_from_slice(fits_data);
    assert(buf@ =~= fits_data@);
    let mut row: usize = 0;
    while row < naxis2
        invariant
            row <= naxis2,
            buf@.len() == fits_data@.len(),
            dlen == fits_data@.len(),
            col@ == cv[col_index as int],
            col_offset == column_offset(cv, col_index as int),
            types_match(col.col_type, values@),
            cells_cover(values@, rep, naxis2 as nat),
            rep == col.repeat,
            col_index < cv.len(),
            cv == binary_columns_view(columns@),
            spec_table_info(fits_data@.len() as int, hdu@) == Ok::<(usize, usize, Seq<BinaryColumnModel>), Error>((naxis1, naxis2, cv)),
            cells_fit(fits_data@.len() as int, hdu.data_start as int, naxis1 as int, naxis2 as nat, col@, col_offset as int),
            fill_column(fits_data@, col.col_type, rep, values@, hdu.data_start as int, naxis1 as int, col_offset as int, row as nat)
                == Ok::<Seq<u8>, Error>(buf@),
        decreases naxis2 - row,
    {
        proof {
            if !(values@ is Ascii || values@ is Bit) {
                assert((row + 1) * rep <= naxis2 * rep) by (nonlinear_arith)
                    requires row + 1 <= naxis2;
            }
            assert(row * naxis1 <= (naxis2 - 1) * naxis1) by (nonlinear_arith)
                requires row <= naxis2 - 1;
        }
        let cell = match serialize_binary_column_value(&col.col_type, col.repeat, values, row) {
            Ok(c) => c,
            Err(e) => {
                proof {
                    lemma_fill_column_err(fits_data@, col.col_type, rep, values@, hdu.data_start as int, naxis1 as int,
                        col_offset as int, (row + 1) as nat, naxis2 as nat);
                }
                return Err(e);
            },
        };
        let pos = hdu.data_start + row * naxis1 + col_offset;
        if cell.len() > buf.len() - pos {
            proof {
                assert(row_base(hdu.data_start as int, naxis1 as int, col_offset as int, row as int) == pos);
                assert(fill_column(fits_data@, col.col_type, rep, values@, hdu.data_start as int, naxis1 as int,
                    col_offset as int, (row + 1) as nat) == Err::<Seq<u8>, Error>(Error::InvalidValue));
                lemma_fill_column_err(fits_data@, col.col_type, rep, values@, hdu.data_start as int, naxis1 as int,
                    col_offset as int, (row + 1) as nat, naxis2 as nat);
            }
            return Err(Error::InvalidValue);
        }
        write_cell(&mut buf, pos, cell.as_slice());
        row += 1;
    }
    Ok(buf)
}

/// Serialize all rows of a binary table into padded FITS data bytes.
///
/// The returned buffer is padded to a multiple of 2880 bytes.
pub fn serialize_binary_table(
    columns: &[BinaryColumnDescriptor],
    col_data: &[BinaryColumnData],
    naxis2: usize,
) -> (r: Result<Vec<u8>>)
    requires
        table_writable(binary_columns_view(columns@), column_data_view(col_data@), naxis2 as nat),
    ensures
        r matches Ok(b) ==> spec_serialize_binary_table(binary_columns_view(columns@), column_data_view(col_data@), naxis2 as nat)
            == Ok::<Seq<u8>, Error>(b@),
        r matches Err(e) ==> spec_serialize_binary_table(binary_columns_view(columns@), column_data_view(col_data@), naxis2 as nat)
            == Err::<Seq<u8>, Error>(e),
{
    let ghost cols = binary_columns_view(columns@);
    let ghost data = column_data_view(col_data@);
    if columns.len() != col_data.len() {
        return Err(Error::InvalidValue);
    }
    let naxis1 = row_width(columns);
    proof {
        assert(naxis1 * naxis2 <= spec_padded_len(naxis1 * naxis2)) by {
            assert(naxis1 * naxis2 >= 0) by (nonlinear_arith);
            lemma_padded_len_bounds(naxis1 * naxis2);
        }
    }
    let raw_len = naxis1 * naxis2;
    let padded_len = padded_byte_len(raw_len);
    let mut buf: Vec<u8> = Vec::new();
    while buf.len() < padded_len
        invariant
            buf@.len() <= padded_len,
            forall|i: int| 0 <= i < buf@.len() ==> buf@[i] == 0u8,
        decreases padded_len - buf@.len(),
    {
        buf.push(0u8);
    }
    let ghost zeros = Seq::new(padded_len as nat, |i: int| 0u8);
    assert(buf@ =~= zeros);
    let mut row: usize = 0;
    while row < naxis2
        invariant
            row <= naxis2,
            cols == binary_columns_view(columns@),
            data == column_data_view(col_data@),
            columns@.len() == col_data@.len(),
            naxis1 == column_offset(cols, cols.len() as int),
            padded_len == spec_padded_len(naxis1 * naxis2),
            table_writable(cols, data, naxis2 as nat),
            zeros == Seq::new(padded_len as nat, |i: int| 0u8),
            buf@ == fill_rows(zeros, cols, data, naxis1 as int, row as nat),
            buf@.len() == padded_len,
            row > 0 ==> forall|k: int| 0 <= k < cols.len() ==> types_match(cols[k].col_type, #[trigger] data[k]),
        decreases naxis2 - row,
    {
        let ghost row_start = buf@;
        let mut col_offset: usize = 0;
        let mut k: usize = 0;
        while k < columns.len()
            invariant
                row < naxis2,
                k <= columns@.len(),
                cols == binary_columns_view(columns@),
                data == column_data_view(col_data@),
                columns@.len() == col_data@.len(),
                naxis1 == column_offset(cols, cols.len() as int),
                padded_len == spec_padded_len(naxis1 * naxis2),
                table_writable(cols, data, naxis2 as nat),
                col_offset == column_offset(cols, k as int),
                buf@ == fill_row(row_start, cols, data, naxis1 as int, row as int, k as nat),
                buf@.len() == padded_len,
                forall|j: int| 0 <= j < k ==> types_match(cols[j].col_type, #[trigger] data[j]),
            decreases columns@.len() - k,
        {
            let col = &columns[k];
            proof {
                assert(cols[k as int] == col@);
                assert(data[k as int] == col_data@[k as int]@);
            }
            let cell = match serialize_binary_column_value(&col.col_type, col.repeat, &col_data[k], row) {
                Ok(c) => c,
                Err(e) => {
                    assert(!types_match(cols[k as int].col_type, data[k as int]));
                    return Err(e);
                },
            };
            proof {
                assert(types_match(cols[k as int].col_type, data[k as int]));
                assert(spec_cell_bytes(cols[k as int].col_type, cols[k as int].repeat as nat, data[k as int], row as int)
                    == Ok::<Seq<u8>, Error>(cell@));
                lemma_column_offset_mono(cols, cols.len() as int);
                lemma_mul_le(row as int, naxis2 - 1, naxis1 as int);
                assert(row * naxis1 + column_offset(cols, k as int) + cell@.len() <= padded_len);
            }
            let dest = row * naxis1 + col_offset;
            write_cell(&mut buf, dest, cell.as_slice());
            proof {
                lemma_column_offset_mono(cols, cols.len() as int);
                assert(column_offset(cols, k + 1) <= naxis1);
            }
            col_offset = col_offset + col.byte_width;
            k += 1;
        }
        row += 1;
    }
    Ok(buf)
}


/// A binary table HDU: its header cards serialized, then its data.
pub open spec fn spec_serialize_binary_table_hdu(cols: Seq<BinaryColumnModel>, data: Seq<ColumnValues>, naxis2: usize)
    -> core::result::Result<Seq<u8>, Error> {
    match spec_serialize_binary_table(cols, data, naxis2 as nat) {
        Err(e) => Err(e),
        Ok(body) => Ok(spec_serialize_header(spec_binary_table_cards(cols, naxis2, 0)) + body),
    }
}

/// The column cards of `k` columns number at most two per column.
pub(crate) proof fn lemma_columns_cards_len(cols: Seq<BinaryColumnModel>, k: nat)
    ensures
        columns_cards(cols, k).len() <= 2 * k,
    decreases k,
{
    if k > 0 {
        lemma_columns_cards_len(cols, (k - 1) as nat);
    }
}

/// Build and serialize a complete binary table HDU (header + data).
///
/// Returns the combined header and data bytes, each padded to block boundaries.
pub fn serialize_binary_table_hdu(
    columns: &[BinaryColumnDescriptor],
    col_data: &[BinaryColumnData],
    naxis2: usize,
) -> (r: Result<Vec<u8>>)
    requires
        table_writable(binary_columns_view(columns@), column_data_view(col_data@), naxis2 as nat),
        80 * (2 * columns@.len() + 9) + 2880 + spec_padded_len(column_offset(binary_columns_view(columns@), columns@.len() as int) * naxis2)
            <= usize::MAX,
    ensures
        r matches Ok(b) ==> spec_serialize_binary_table_hdu(binary_columns_view(columns@), column_data_view(col_data@), naxis2)
            == Ok::<Seq<u8>, Error>(b@),
        r matches Err(e) ==> spec_serialize_binary_table_hdu(binary_columns_view(columns@), column_data_view(col_data@), naxis2)
            == Err::<Seq<u8>, Error>(e),
{
    let cards = build_binary_table_cards(columns, naxis2, 0)?;
    proof {
        lemma_columns_cards_len(binary_columns_view(columns@), columns@.len() as nat);
        assert(cards_view(cards@).len() == cards@.len());
        assert(cards@.len() <= 8 + 2 * columns@.len());
        let w = column_offset(binary_columns_view(columns@), columns@.len() as int);
        lemma_column_offset_mono(binary_columns_view(columns@), columns@.len() as int);
        assert(column_offset(binary_columns_view(columns@), 0) == 0);
        assert(w * naxis2 >= 0) by (nonlinear_arith) requires w >= 0;
        lemma_padded_len_bounds(w * naxis2);
    }
    let header_bytes = serialize_header(cards.as_slice());
    let data_bytes = serialize_binary_table(columns, col_data, naxis2)?;
    proof {
        let hb = spec_serialize_header(cards_view(cards@));
        assert(hb.len() == spec_padded_len((80 * (cards@.len() + 1)) as int));
        lemma_padded_len_bounds((80 * (cards@.len() + 1)) as int);
    }
    let mut result: Vec<u8> = Vec::new();
    result.extend_from_slice(header_bytes.as_slice());
    result.extend_from_slice(data_bytes.as_slice());
    assert(result@ =~= header_bytes@ + data_bytes@);
    Ok(result)
}


/// A TFORM text with no `(` is all before the parenthesis.
proof fn lemma_before_paren_none(t: Seq<char>)
    requires
        forall|i: int| 0 <= i < t.len() ==> #[trigger] t[i] != '(',
    ensures
        before_paren(t) == t,
    decreases t.len(),
{
    if t.len() > 0 {
        assert forall|i: int| 0 <= i < t.drop_first().len() implies #[trigger] t.drop_first()[i] != '(' by {
            assert(t.drop_first()[i] == t[i + 1]);
        }
        lemma_before_paren_none(t.drop_first());
        assert(seq![t[0]] + t.drop_first() =~= t);
    }
}

/// A repeat count that reads as a number ends in a digit.
proof fn lemma_repeat_ends_in_digit(r: Seq<char>)
    requires
        r.len() > 0,
        repeat_count(r) is Some,
    ensures
        crate::text::is_digit(r.last()),
{
    let body = crate::text::sign_split(r, false).1;
    assert(body.len() > 0 && crate::text::all_digits(body));
    assert(body.last() == r.last());
    assert(crate::text::is_digit(body[body.len() - 1]));
}

/// The grammar of a binary-table TFORM value: trimmed and cut before any
/// `(`, it reads as repeat `r` and type `t` exactly when it is a repeat
/// count (empty for 1) then the type code of `t`, or a repeat count, `P`
/// or `Q`, then a type code, for a variable-length array descriptor. Every
/// other value, the empty one among them, is `InvalidValue`.
pub proof fn lemma_tform_grammar(s: Seq<char>, r: usize, t: BinaryColumnType)
    requires
        trim(s).len() == 0 || before_paren(trim(s)).len() > 0,
    ensures
        spec_parse_tform_binary(s) is Ok || spec_parse_tform_binary(s) == Err::<(usize, BinaryColumnType), Error>(Error::InvalidValue),
        trim(s).len() == 0 ==> spec_parse_tform_binary(s) == Err::<(usize, BinaryColumnType), Error>(Error::InvalidValue),
        spec_parse_tform_binary(s) == Ok::<(usize, BinaryColumnType), Error>((r, t)) <==> ({
            let u = before_paren(trim(s));
            ||| (u.len() >= 1 && type_of_code(u.last()) == Some(t) && repeat_count(u.subrange(0, u.len() - 1)) == Some(r))
            ||| (u.len() >= 2 && (u[u.len() - 2] == 'P' || u[u.len() - 2] == 'Q') && type_of_code(u.last()) is Some
                && repeat_count(u.subrange(0, u.len() - 2)) == Some(r)
                && t == if u[u.len() - 2] == 'P' { BinaryColumnType::VarArrayP } else { BinaryColumnType::VarArrayQ })
        }),
{
    let tt = trim(s);
    if tt.len() > 0 {
        let u = before_paren(tt);
        let n = u.len() as int;
        if n >= 2 && (u[n - 2] == 'P' || u[n - 2] == 'Q') {
            let pre = u.subrange(0, n - 1);
            if repeat_count(pre) is Some {
                lemma_repeat_ends_in_digit(pre);
                assert(pre.last() == u[n - 2]);
            }
        }
    }
}

/// Writing a column's TFORM text and parsing it back gives the column's
/// repeat count and type, for every type but the variable-length array
/// descriptors (whose TFORM also names an element type).
pub proof fn lemma_tform_binary_roundtrip(repeat: usize, t: BinaryColumnType)
    requires
        t != BinaryColumnType::VarArrayP,
        t != BinaryColumnType::VarArrayQ,
    ensures
        tform_sliceable(tform_text(repeat as nat, t)),
        spec_parse_tform_binary(tform_text(repeat as nat, t)) == Ok::<(usize, BinaryColumnType), Error>((repeat, t)),
{
    let d = ascii_chars(nat_digits(repeat as nat));
    crate::table::lemma_digits_roundtrip(repeat as nat);
    crate::table::lemma_parse_digits(repeat);
    let s = tform_text(repeat as nat, t);
    let c = (type_code(t) as char);
    assert(s =~= d.push(c));
    assert(s.len() >= 2);
    assert forall|i: int| 0 <= i < s.len() implies #[trigger] s[i] != '(' && !crate::text::is_ws(s[i]) && (s[i] as u32) < 128 by {
        if i < d.len() {
            assert(s[i] == d[i]);
            assert(crate::text::is_digit(d[i]));
        }
    }
    assert(trim_end(s) == s);
    assert(crate::text::trim_start(s) == s);
    assert(trim(s) == s);
    lemma_before_paren_none(s);
    assert(s.subrange(0, s.len() - 1) =~= d);
    assert(s.last() == c);
    assert(s[s.len() - 2] == d.last());
    assert(crate::text::is_digit(d.last()));
}

} // verus!
