//! Column descriptions of the `fitsio`-style API, and reading a column of
//! a table HDU by its name.
use vstd::prelude::*;

use super::errors::{Error, Result};
use super::fitsfile::FitsFile;
use super::hdu::{out_of_range_message, FitsHdu};
use super::headers::card_name;
use crate::bintable::{binary_columns_view, column_readable, column_readable_exec, parse_binary_table_columns, read_binary_column, read_binary_column_range, spec_binary_columns, spec_read_binary_column, spec_read_binary_column_range, spec_write_binary_column, tforms_sliceable, tforms_sliceable_exec, write_binary_column, BinaryColumnData, BinaryColumnType, ColumnValues};
use crate::hdu::{numbered_keyword, numbered_keyword_exec};
use super::hdu::{integer_scale, scale_of};
use super::images::{scale_one, PixelValue};
use crate::hdu::{hdus_view, parse_fits, spec_parse_fits, FitsData, HduInfo, HduInfoModel, HduModel};
use crate::header::{cards_view, Card, CardModel};
use crate::text::{ascii_chars, int_decimal, string_from_bytes, text_equals, trim, trimmed_equals, u64_decimal};
use crate::value::{Value, ValueModel};

verus! {

/// Describes one column in a table extension.
#[derive(Debug, Clone, PartialEq)]
pub struct ColumnDescription {
    pub name: String,
    pub data_type: ColumnDataDescription,
}

/// Describes the data type and repeat count for a column.
#[derive(Debug, Clone, PartialEq)]
pub struct ColumnDataDescription {
    pub data_type: ColumnDataType,
    pub repeat: usize,
    pub width: usize,
}

/// The supported column data types.
#[derive(Debug, Clone, Copy, PartialEq, Eq)]
pub enum ColumnDataType {
    Int,
    Long,
    Float,
    Double,
    String,
    Short,
    Byte,
    Logical,
}

/// A concrete column descriptor with computed byte width.
#[derive(Debug, Clone, PartialEq)]
pub struct ConcreteColumnDescription {
    pub name: String,
    pub data_type: ColumnDataType,
    pub repeat: usize,
    pub width: usize,
}

impl ColumnDescription {
    /// Convert to a concrete descriptor.
    pub fn to_concrete(&self) -> (r: ConcreteColumnDescription)
        ensures
            r.name@ == self.name@,
            r.data_type == self.data_type.data_type,
            r.repeat == self.data_type.repeat,
            r.width == self.data_type.width,
    {
        ConcreteColumnDescription {
            name: self.name.clone(),
            data_type: self.data_type.data_type,
            repeat: self.data_type.repeat,
            width: self.data_type.width,
        }
    }
}

impl ColumnDataDescription {
    /// Create a new column data description with the given type and repeat=1, width=1.
    pub fn new(data_type: ColumnDataType) -> (r: Self)
        ensures
            r.data_type == data_type,
            r.repeat == 1,
            r.width == 1,
    {
        ColumnDataDescription { data_type, repeat: 1, width: 1 }
    }

    /// Set the repeat count.
    pub fn with_repeat(self, repeat: usize) -> (r: Self)
        ensures
            r.data_type == self.data_type,
            r.repeat == repeat,
            r.width == self.width,
    {
        ColumnDataDescription { data_type: self.data_type, repeat, width: self.width }
    }

    /// Set the width (used for string columns).
    pub fn with_width(self, width: usize) -> (r: Self)
        ensures
            r.data_type == self.data_type,
            r.repeat == self.repeat,
            r.width == width,
    {
        ColumnDataDescription { data_type: self.data_type, repeat: self.repeat, width }
    }
}

/// The keyword `TTYPEn` that names column `n`.
pub open spec fn ttype_key(n: nat) -> Seq<char> {
    "TTYPE"@ + ascii_chars(int_decimal(n as int))
}

/// Whether a card's value is a string that, trimmed, is `name`.
pub open spec fn holds_name(v: Option<ValueModel>, name: Seq<char>) -> bool {
    match v {
        Some(ValueModel::Str(s)) => trim(s) == name,
        _ => false,
    }
}

/// Whether a card named `key` holds a string that, trimmed, is `name`.
pub open spec fn names_column(cards: Seq<CardModel>, key: Seq<char>, name: Seq<char>) -> bool {
    exists|k: int| 0 <= k < cards.len() && #[trigger] card_name(cards[k]) == key && holds_name(cards[k].value, name)
}

/// The 0-based index of the first column, from column `i + 1` to column
/// `tfields`, whose TTYPE is `name`.
pub open spec fn column_index(cards: Seq<CardModel>, name: Seq<char>, tfields: nat, i: nat) -> Option<nat>
    decreases tfields - i,
{
    if i >= tfields {
        None
    } else if names_column(cards, ttype_key(i + 1), name) {
        Some(i)
    } else {
        column_index(cards, name, tfields, i + 1)
    }
}

/// A column found by name is one of the table's.
proof fn lemma_column_index_range(cards: Seq<CardModel>, name: Seq<char>, tfields: nat, i: nat)
    ensures
        column_index(cards, name, tfields, i) matches Some(c) ==> c < tfields,
    decreases tfields - i,
{
    if i < tfields {
        lemma_column_index_range(cards, name, tfields, i + 1);
    }
}

/// The number of columns of a table HDU.
pub open spec fn table_fields(info: HduInfoModel) -> Option<usize> {
    match info {
        HduInfoModel::BinaryTable { tfields, .. } => Some(tfields),
        HduInfoModel::AsciiTable { tfields, .. } => Some(tfields),
        _ => None,
    }
}

/// What looking a column up by name in HDU `index` of a file gives.
pub enum ColumnRead {
    /// The file's bytes do not parse.
    Unreadable(crate::error::Error),
    /// The file has no HDU of that index.
    NoHdu,
    /// The HDU is not a table.
    NotTable,
    /// No column of the table has that name.
    NoColumn(Seq<char>),
    /// Reading the column's cells failed.
    Failed(crate::error::Error),
    /// The column's values, with its `TSCALn` and `TZEROn` (`None` when
    /// not an integer).
    Read(ColumnValues, Option<int>, Option<int>),
}

/// The keyword prefix `TSCAL`.
pub open spec fn tscal_name() -> Seq<u8> {
    seq![84u8, 83u8, 67u8, 65u8, 76u8]
}

/// The keyword prefix `TZERO`.
pub open spec fn tzero_name() -> Seq<u8> {
    seq![84u8, 90u8, 69u8, 82u8, 79u8]
}

/// The integer value of keyword `prefix` numbered `n`, `default` when the
/// HDU has none, `None` when it is not an integer.
pub open spec fn column_scale(cards: Seq<CardModel>, prefix: Seq<u8>, n: nat, default: int) -> Option<int> {
    match numbered_keyword(prefix, n) {
        Some(k) => scale_of(cards, k, default),
        None => Some(default),
    }
}

/// Rows `start..start + count` as integers, or all rows.
pub open spec fn rows_view(rows: Option<(usize, usize)>) -> Option<(int, int)> {
    match rows {
        Some((s, n)) => Some((s as int, n as int)),
        None => None,
    }
}

/// Reading column `name` of HDU `index` of a file with bytes `data`, over
/// the given rows or all of them.
pub open spec fn column_read_rows(data: Seq<u8>, index: int, name: Seq<char>, rows: Option<(int, int)>) -> ColumnRead {
    match spec_parse_fits(data) {
        Err(e) => ColumnRead::Unreadable(e),
        Ok(hs) => if index >= hs.len() {
            ColumnRead::NoHdu
        } else {
            match table_fields(hs[index].info) {
                None => ColumnRead::NotTable,
                Some(tf) => match column_index(hs[index].cards, name, tf as nat, 0) {
                    None => ColumnRead::NoColumn(name),
                    Some(c) => match (match rows {
                        None => spec_read_binary_column(data, hs[index], c as int),
                        Some((s, n)) => spec_read_binary_column_range(data, hs[index], c as int, s, n),
                    }) {
                        Err(e) => ColumnRead::Failed(e),
                        Ok(v) => ColumnRead::Read(v, column_scale(hs[index].cards, tscal_name(), c + 1, 1),
                            column_scale(hs[index].cards, tzero_name(), c + 1, 0)),
                    },
                },
            }
        },
    }
}

/// Reading column `name` of HDU `index` of a file with bytes `data`, all
/// rows.
pub open spec fn column_read(data: Seq<u8>, index: int, name: Seq<char>) -> ColumnRead {
    column_read_rows(data, index, name, None)
}

/// Column `name` of HDU `index` can be read without running past the data.
pub open spec fn column_in_reach(data: Seq<u8>, index: int, name: Seq<char>) -> bool {
    match spec_parse_fits(data) {
        Ok(hs) => 0 <= index < hs.len() ==> match table_fields(hs[index].info) {
            Some(tf) => match column_index(hs[index].cards, name, tf as nat, 0) {
                Some(c) => column_readable(data.len() as int, hs[index], c as int),
                None => true,
            },
            None => true,
        },
        Err(_) => true,
    }
}

/// The message for a table column that was not found.
pub open spec fn no_column_message(name: Seq<char>) -> Seq<char> {
    "column '"@ + name + "' not found"@
}

/// The error, if any, that a column lookup gives before the column's type
/// matters.
pub open spec fn column_failed(c: ColumnRead, index: int, e: Error) -> bool {
    match c {
        ColumnRead::Unreadable(f) => e matches Error::Fits(g) && g == f,
        ColumnRead::NoHdu => e matches Error::Message(m) && m@ == out_of_range_message(index),
        ColumnRead::NotTable => e matches Error::Message(m) && m@ == "HDU is not a table"@,
        ColumnRead::NoColumn(name) => e matches Error::Message(m) && m@ == no_column_message(name),
        ColumnRead::Failed(f) => e matches Error::Fits(g) && g == f,
        ColumnRead::Read(..) => false,
    }
}

/// The 0-based index of the first column whose TTYPE names `name`.
fn find_column_index(cards: &[Card], name: &str, tfields: usize) -> (r: Option<usize>)
    ensures
        r matches Some(c) ==> column_index(cards_view(cards@), name@, tfields as nat, 0) == Some(c as nat),
        r is None ==> column_index(cards_view(cards@), name@, tfields as nat, 0) is None,
{
    let ghost cv = cards_view(cards@);
    let mut i: usize = 0;
    while i < tfields
        invariant
            i <= tfields,
            cv == cards_view(cards@),
            column_index(cv, name@, tfields as nat, 0) == column_index(cv, name@, tfields as nat, i as nat),
        decreases tfields - i,
    {
        let digits = u64_decimal((i + 1) as u64);
        let mut key = String::from_str("TTYPE");
        let d = string_from_bytes(digits.as_slice());
        key.append(d.as_str());
        proof {
            reveal_strlit("TTYPE");
        }
        assert(key@ == ttype_key((i + 1) as nat));
        let mut j: usize = 0;
        while j < cards.len()
            invariant
                j <= cards@.len(),
                cv == cards_view(cards@),
                i < tfields,
                key@ == ttype_key((i + 1) as nat),
                column_index(cv, name@, tfields as nat, 0) == column_index(cv, name@, tfields as nat, i as nat),
                forall|k: int| 0 <= k < j ==> !(#[trigger] card_name(cv[k]) == key@ && holds_name(cv[k].value, name@)),
            decreases cards@.len() - j,
        {
            let card = &cards[j];
            assert(cv[j as int] == card@);
            if text_equals(card.keyword_str(), key.as_str()) {
                if let Some(Value::String(s)) = &card.value {
                    if trimmed_equals(s.as_str(), name) {
                        assert(card_name(cv[j as int]) == key@);
                        assert(cv[j as int].value == Some(ValueModel::Str(s@)));
                        assert(holds_name(cv[j as int].value, name@));
                        assert(names_column(cv, ttype_key((i + 1) as nat), name@));
                        return Some(i);
                    }
                }
            }
            j += 1;
        }
        assert(!names_column(cv, ttype_key((i + 1) as nat), name@));
        i += 1;
    }
    None
}

/// Whether column `name` of HDU `index` of the file can be read without
/// running past the data.
pub fn column_in_reach_exec(file: &FitsFile, index: usize, name: &str) -> (b: bool)
    requires
        file@.data.len() + 2880 <= usize::MAX,
    ensures
        b == column_in_reach(file@.data, index as int, name@),
{
    let fits_data = match parse_fits(file.data()) {
        Ok(f) => f,
        Err(_) => return true,
    };
    if index >= fits_data.hdus.len() {
        return true;
    }
    let h = &fits_data.hdus[index];
    let tfields = match &h.info {
        HduInfo::BinaryTable { tfields, .. } => *tfields,
        HduInfo::AsciiTable { tfields, .. } => *tfields,
        _ => return true,
    };
    match find_column_index(h.cards.as_slice(), name, tfields) {
        Some(c) => column_readable_exec(file.data(), h, c),
        None => true,
    }
}

/// The integer cells of a numeric column; `None` for any other column.
pub open spec fn column_ints(c: ColumnValues) -> Option<Seq<int>> {
    match c {
        ColumnValues::Byte(v) => Some(Seq::new(v.len(), |i: int| v[i] as int)),
        ColumnValues::Short(v) => Some(Seq::new(v.len(), |i: int| v[i] as int)),
        ColumnValues::Int(v) => Some(Seq::new(v.len(), |i: int| v[i] as int)),
        ColumnValues::Long(v) => Some(Seq::new(v.len(), |i: int| v[i] as int)),
        _ => None,
    }
}

/// The message for a column that is not numeric.
pub open spec fn not_numeric_message(name: Seq<char>) -> Seq<char> {
    "column '"@ + name + "' is not numeric type"@
}

/// The message for a value that does not fit a column or element type.
pub open spec fn column_range_message(name: Seq<char>) -> Seq<char> {
    "value out of range for column '"@ + name + "'"@
}

/// The message for column values that need floating point.
pub open spec fn column_float_message() -> Seq<char> {
    "scaled column values need floating point"@
}

/// What reading integers of type `T` from a column with cells `c`, scale
/// `a` and offset `z` returns: each cell times `a` plus `z`, when `T` holds
/// them all.
pub open spec fn scaled_read<T: PixelValue>(c: ColumnValues, a: Option<int>, z: Option<int>, name: Seq<char>, r: Result<Vec<T>>) -> bool {
    match column_ints(c) {
        Some(vs) => match (a, z) {
            (Some(a), Some(z)) => if !(i64::MIN <= a <= i64::MAX) {
                r matches Err(Error::Message(m)) && m@ == column_float_message()
            } else if forall|i: int| 0 <= i < vs.len() ==> T::holds(#[trigger] vs[i] * a + z) {
                r matches Ok(v) && v@.len() == vs.len() && forall|i: int| 0 <= i < vs.len() ==> T::value_of(#[trigger] v@[i]) == vs[i] * a + z
            } else {
                r matches Err(Error::Message(m)) && m@ == column_range_message(name)
            },
            _ => r matches Err(Error::Message(m)) && m@ == column_float_message(),
        },
        None => if c is Float || c is Double {
            r matches Err(Error::Message(m)) && m@ == column_float_message()
        } else {
            r matches Err(Error::Message(m)) && m@ == not_numeric_message(name)
        },
    }
}

/// What a column read returns for a lookup `k`, given what the element type
/// makes of the values it found.
pub open spec fn column_outcome<T: ReadsCol>(k: ColumnRead, index: int, name: Seq<char>, r: Result<Vec<T>>) -> bool {
    match k {
        ColumnRead::Read(c, a, z) => T::read_result(c, a, z, name, r),
        k => r matches Err(e) && column_failed(k, index, e),
    }
}

/// Types that a table column can be read as.
pub trait ReadsCol: Sized {
    /// What reading a column with cells `c`, `TSCALn` `a` and `TZEROn` `z`,
    /// named `name`, returns.
    spec fn read_result(c: ColumnValues, a: Option<int>, z: Option<int>, name: Seq<char>, r: Result<Vec<Self>>) -> bool;

    /// Read column `name` of the HDU, all rows.
    fn read_col(file: &FitsFile, hdu: &FitsHdu, name: &str) -> (r: Result<Vec<Self>>)
        requires
            file@.data.len() + 2880 <= usize::MAX,
            column_in_reach(file@.data, hdu.hdu_index as int, name@),
        ensures
            match column_read(file@.data, hdu.hdu_index as int, name@) {
                ColumnRead::Read(c, a, z) => Self::read_result(c, a, z, name@, r),
                k => r matches Err(e) && column_failed(k, hdu.hdu_index as int, e),
            };
}

/// Types that a range of rows of a table column can be read as.
pub trait ReadsColRange: ReadsCol {
    /// Read column `name` of the HDU over rows `start_row` to
    /// `start_row + num_rows`.
    fn read_col_range(file: &FitsFile, hdu: &FitsHdu, name: &str, start_row: usize, num_rows: usize) -> (r: Result<Vec<Self>>)
        requires
            file@.data.len() + 2880 <= usize::MAX,
            column_in_reach(file@.data, hdu.hdu_index as int, name@),
        ensures
            match column_read_rows(file@.data, hdu.hdu_index as int, name@, Some((start_row as int, num_rows as int))) {
                ColumnRead::Read(c, a, z) => Self::read_result(c, a, z, name@, r),
                k => r matches Err(e) && column_failed(k, hdu.hdu_index as int, e),
            };
}

/// A number as an integer, `None` when absent.
pub open spec fn opt_int(v: Option<i128>) -> Option<int> {
    match v {
        Some(x) => Some(x as int),
        None => None,
    }
}

/// The integer value of keyword `prefix` numbered `n` of the cards.
fn column_scale_exec(cards: &[Card], prefix: &[u8; 5], n: usize, default: i64) -> (r: Option<i128>)
    ensures
        opt_int(r) == column_scale(cards_view(cards@), prefix@, n as nat, default as int),
        r matches Some(v) ==> -0x1_0000_0000_0000_0000 <= v <= 0x1_0000_0000_0000_0000,
{
    match numbered_keyword_exec(prefix, n) {
        Some(k) => integer_scale(cards, &k, default),
        None => Some(default as i128),
    }
}

/// Read the values of column `name` of the HDU, over the given rows or all
/// of them, with its `TSCALn` and `TZEROn`, before their conversion to an
/// element type.
fn read_column_values(file: &FitsFile, hdu: &FitsHdu, name: &str, rows: Option<(usize, usize)>)
    -> (r: Result<(BinaryColumnData, Option<i128>, Option<i128>)>)
    requires
        file@.data.len() + 2880 <= usize::MAX,
        column_in_reach(file@.data, hdu.hdu_index as int, name@),
    ensures
        match column_read_rows(file@.data, hdu.hdu_index as int, name@, rows_view(rows)) {
            ColumnRead::Read(c, a, z) => r matches Ok((v, ea, ez)) && v@ == c && opt_int(ea) == a && opt_int(ez) == z
                && (ea matches Some(x) ==> -0x1_0000_0000_0000_0000 <= x <= 0x1_0000_0000_0000_0000)
                && (ez matches Some(x) ==> -0x1_0000_0000_0000_0000 <= x <= 0x1_0000_0000_0000_0000),
            k => r matches Err(e) && column_failed(k, hdu.hdu_index as int, e),
        },
{
    let fits_data = match parse_fits(file.data()) {
        Ok(f) => f,
        Err(e) => return Err(Error::Fits(e)),
    };
    if hdu.hdu_index >= fits_data.hdus.len() {
        let digits = u64_decimal(hdu.hdu_index as u64);
        let d = string_from_bytes(digits.as_slice());
        let mut m = String::from_str("HDU index ");
        m.append(d.as_str());
        m.append(" out of range");
        proof {
            reveal_strlit("HDU index ");
            reveal_strlit(" out of range");
        }
        return Err(Error::Message(m));
    }
    let core_hdu = &fits_data.hdus[hdu.hdu_index];
    let tfields = match &core_hdu.info {
        HduInfo::BinaryTable { tfields, .. } => *tfields,
        HduInfo::AsciiTable { tfields, .. } => *tfields,
        _ => {
            proof {
                reveal_strlit("HDU is not a table");
            }
            return Err(Error::Message(String::from_str("HDU is not a table")));
        },
    };
    let col_idx = match find_column_index(core_hdu.cards.as_slice(), name, tfields) {
        Some(c) => c,
        None => {
            let mut m = String::from_str("column '");
            m.append(name);
            m.append("' not found");
            proof {
                reveal_strlit("column '");
                reveal_strlit("' not found");
            }
            return Err(Error::Message(m));
        },
    };
    let read = match rows {
        None => read_binary_column(file.data(), core_hdu, col_idx),
        Some((start, count)) => read_binary_column_range(file.data(), core_hdu, col_idx, start, count),
    };
    let values = match read {
        Ok(v) => v,
        Err(e) => return Err(Error::Fits(e)),
    };
    proof {
        lemma_column_index_range(cards_view(core_hdu.cards@), name@, tfields as nat, 0);
    }
    let tscal: [u8; 5] = [84u8, 83u8, 67u8, 65u8, 76u8];
    let tzero: [u8; 5] = [84u8, 90u8, 69u8, 82u8, 79u8];
    assert(tscal@ == tscal_name());
    assert(tzero@ == tzero_name());
    let a = column_scale_exec(core_hdu.cards.as_slice(), &tscal, col_idx + 1, 1);
    let z = column_scale_exec(core_hdu.cards.as_slice(), &tzero, col_idx + 1, 0);
    Ok((values, a, z))
}

/// A character column's texts.
fn strings_of(c: BinaryColumnData) -> (r: Result<Vec<String>>)
    ensures
        <String as ReadsCol>::read_result(c@, None, None, Seq::empty(), r),
{
    match c {
        BinaryColumnData::Ascii(v) => Ok(v),
        _ => {
            proof {
                reveal_strlit("column is not string type");
            }
            Err(Error::Message(String::from_str("column is not string type")))
        },
    }
}

/// A logical column's values.
fn bools_of(c: BinaryColumnData) -> (r: Result<Vec<bool>>)
    ensures
        <bool as ReadsCol>::read_result(c@, None, None, Seq::empty(), r),
{
    match c {
        BinaryColumnData::Logical(v) => Ok(v),
        _ => {
            proof {
                reveal_strlit("column is not boolean type");
            }
            Err(Error::Message(String::from_str("column is not boolean type")))
        },
    }
}

/// Each integer cell of a numeric column times `a` plus `z`; `None` for any
/// other column.
fn scaled_cells(d: &BinaryColumnData, a: i64, z: i128) -> (r: Option<Vec<i128>>)
    requires
        -0x1_0000_0000_0000_0000 <= z <= 0x1_0000_0000_0000_0000,
    ensures
        r matches Some(v) ==> column_ints(d@) matches Some(vs) && v@.len() == vs.len()
            && forall|i: int| 0 <= i < vs.len() ==> #[trigger] v@[i] == vs[i] * a + z,
        r is None ==> column_ints(d@) is None,
{
    let mut out: Vec<i128> = Vec::new();
    match d {
        BinaryColumnData::Byte(v) => {
            let mut i: usize = 0;
            while i < v.len()
                invariant
                    i <= v@.len(),
                    out@.len() == i,
                    -0x1_0000_0000_0000_0000 <= z <= 0x1_0000_0000_0000_0000,
                    forall|j: int| 0 <= j < i ==> #[trigger] out@[j] == v@[j] * a + z,
                decreases v@.len() - i,
            {
                out.push(scale_one(v[i] as i64, a, z));
                i += 1;
            }
        },
        BinaryColumnData::Short(v) => {
            let mut i: usize = 0;
            while i < v.len()
                invariant
                    i <= v@.len(),
                    out@.len() == i,
                    -0x1_0000_0000_0000_0000 <= z <= 0x1_0000_0000_0000_0000,
                    forall|j: int| 0 <= j < i ==> #[trigger] out@[j] == v@[j] * a + z,
                decreases v@.len() - i,
            {
                out.push(scale_one(v[i] as i64, a, z));
                i += 1;
            }
        },
        BinaryColumnData::Int(v) => {
            let mut i: usize = 0;
            while i < v.len()
                invariant
                    i <= v@.len(),
                    out@.len() == i,
                    -0x1_0000_0000_0000_0000 <= z <= 0x1_0000_0000_0000_0000,
                    forall|j: int| 0 <= j < i ==> #[trigger] out@[j] == v@[j] * a + z,
                decreases v@.len() - i,
            {
                out.push(scale_one(v[i] as i64, a, z));
                i += 1;
            }
        },
        BinaryColumnData::Long(v) => {
            let mut i: usize = 0;
            while i < v.len()
                invariant
                    i <= v@.len(),
                    out@.len() == i,
                    -0x1_0000_0000_0000_0000 <= z <= 0x1_0000_0000_0000_0000,
                    forall|j: int| 0 <= j < i ==> #[trigger] out@[j] == v@[j] * a + z,
                decreases v@.len() - i,
            {
                out.push(scale_one(v[i] as i64, a, z));
                i += 1;
            }
        },
        _ => return None,
    }
    Some(out)
}

/// The values as values of `T`, when `T` holds them all.
fn narrow_all<T: PixelValue>(vs: &Vec<i128>) -> (r: Option<Vec<T>>)
    ensures
        r matches Some(v) ==> v@.len() == vs@.len() && forall|i: int| 0 <= i < vs@.len() ==> T::value_of(#[trigger] v@[i]) == vs@[i],
        r is Some <==> forall|i: int| 0 <= i < vs@.len() ==> T::holds(#[trigger] vs@[i] as int),
{
    let mut out: Vec<T> = Vec::new();
    let mut i: usize = 0;
    while i < vs.len()
        invariant
            i <= vs@.len(),
            out@.len() == i,
            forall|j: int| 0 <= j < i ==> T::holds(#[trigger] vs@[j] as int),
            forall|j: int| 0 <= j < i ==> T::value_of(#[trigger] out@[j]) == vs@[j],
        decreases vs@.len() - i,
    {
        match T::from_exact(vs[i]) {
            Some(x) => out.push(x),
            None => return None,
        }
        i += 1;
    }
    Some(out)
}

/// The message for a value that does not fit column `name`.
fn column_range_error(name: &str) -> (r: Error)
    ensures
        r matches Error::Message(m) && m@ == column_range_message(name@),
{
    let mut m = String::from_str("value out of range for column '");
    m.append(name);
    m.append("'");
    proof {
        reveal_strlit("value out of range for column '");
        reveal_strlit("'");
    }
    Error::Message(m)
}

/// The error for column values that need floating point.
fn column_float_error() -> (r: Error)
    ensures
        r matches Error::Message(m) && m@ == column_float_message(),
{
    proof {
        reveal_strlit("scaled column values need floating point");
    }
    Error::Message(String::from_str("scaled column values need floating point"))
}

/// The integer cells of a numeric column as values of `T`, scaled by `a`
/// and offset by `z`.
fn ints_of<T: PixelValue>(c: BinaryColumnData, a: Option<i128>, z: Option<i128>, name: &str) -> (r: Result<Vec<T>>)
    requires
        a matches Some(x) ==> -0x1_0000_0000_0000_0000 <= x <= 0x1_0000_0000_0000_0000,
        z matches Some(x) ==> -0x1_0000_0000_0000_0000 <= x <= 0x1_0000_0000_0000_0000,
    ensures
        scaled_read::<T>(c@, opt_int(a), opt_int(z), name@, r),
{
    let (a, z) = match (a, z) {
        (Some(a), Some(z)) => (a, z),
        _ => {
            match &c {
                BinaryColumnData::Byte(_) | BinaryColumnData::Short(_) | BinaryColumnData::Int(_)
                | BinaryColumnData::Long(_) | BinaryColumnData::Float(_) | BinaryColumnData::Double(_) => {
                    return Err(column_float_error());
                },
                _ => {},
            }
            let mut m = String::from_str("column '");
            m.append(name);
            m.append("' is not numeric type");
            proof {
                reveal_strlit("column '");
                reveal_strlit("' is not numeric type");
            }
            return Err(Error::Message(m));
        },
    };
    if !(i64::MIN as i128 <= a && a <= i64::MAX as i128) {
        match &c {
            BinaryColumnData::Byte(_) | BinaryColumnData::Short(_) | BinaryColumnData::Int(_)
            | BinaryColumnData::Long(_) | BinaryColumnData::Float(_) | BinaryColumnData::Double(_) => {
                return Err(column_float_error());
            },
            _ => {},
        }
        let mut m = String::from_str("column '");
        m.append(name);
        m.append("' is not numeric type");
        proof {
            reveal_strlit("column '");
            reveal_strlit("' is not numeric type");
        }
        return Err(Error::Message(m));
    }
    let a = a as i64;
    let vs = match scaled_cells(&c, a, z) {
        Some(v) => v,
        None => {
            match &c {
                BinaryColumnData::Float(_) | BinaryColumnData::Double(_) => return Err(column_float_error()),
                _ => {},
            }
            let mut m = String::from_str("column '");
            m.append(name);
            m.append("' is not numeric type");
            proof {
                reveal_strlit("column '");
                reveal_strlit("' is not numeric type");
            }
            return Err(Error::Message(m));
        },
    };
    let ghost sv = column_ints(c@)->Some_0;
    let r = narrow_all::<T>(&vs);
    proof {
        assert forall|i: int| 0 <= i < sv.len() implies #[trigger] (sv[i] * a + z) == vs@[i] by {}
        if forall|i: int| 0 <= i < sv.len() ==> T::holds(#[trigger] (sv[i] * a + z)) {
            assert forall|i: int| 0 <= i < vs@.len() implies T::holds(#[trigger] vs@[i] as int) by {
                assert(sv[i] * a + z == vs@[i]);
            }
        } else {
            let i = choose|i: int| 0 <= i < sv.len() && !T::holds(#[trigger] (sv[i] * a + z));
            assert(sv[i] * a + z == vs@[i]);
            assert(!T::holds(vs@[i] as int));
        }
    }
    match r {
        Some(v) => Ok(v),
        None => Err(column_range_error(name)),
    }
}

impl ReadsCol for String {
    open spec fn read_result(c: ColumnValues, a: Option<int>, z: Option<int>, name: Seq<char>, r: Result<Vec<Self>>) -> bool {
        match c {
            ColumnValues::Ascii(t) => r matches Ok(v) && t == Seq::new(v@.len(), |i: int| v@[i]@),
            _ => r matches Err(Error::Message(m)) && m@ == "column is not string type"@,
        }
    }

    /// Read a character column: each row's text, trailing spaces dropped.
    fn read_col(file: &FitsFile, hdu: &FitsHdu, name: &str) -> (r: Result<Vec<Self>>) {
        match read_column_values(file, hdu, name, None) {
            Ok((c, _, _)) => strings_of(c),
            Err(e) => Err(e),
        }
    }
}

impl ReadsColRange for String {
    /// Read a character column over a range of rows.
    fn read_col_range(file: &FitsFile, hdu: &FitsHdu, name: &str, start_row: usize, num_rows: usize) -> (r: Result<Vec<Self>>) {
        match read_column_values(file, hdu, name, Some((start_row, num_rows))) {
            Ok((c, _, _)) => strings_of(c),
            Err(e) => Err(e),
        }
    }
}

impl ReadsCol for bool {
    open spec fn read_result(c: ColumnValues, a: Option<int>, z: Option<int>, name: Seq<char>, r: Result<Vec<Self>>) -> bool {
        match c {
            ColumnValues::Logical(t) => r matches Ok(v) && t == v@,
            _ => r matches Err(Error::Message(m)) && m@ == "column is not boolean type"@,
        }
    }

    /// Read a logical column.
    fn read_col(file: &FitsFile, hdu: &FitsHdu, name: &str) -> (r: Result<Vec<Self>>) {
        match read_column_values(file, hdu, name, None) {
            Ok((c, _, _)) => bools_of(c),
            Err(e) => Err(e),
        }
    }
}

impl ReadsColRange for bool {
    /// Read a logical column over a range of rows.
    fn read_col_range(file: &FitsFile, hdu: &FitsHdu, name: &str, start_row: usize, num_rows: usize) -> (r: Result<Vec<Self>>) {
        match read_column_values(file, hdu, name, Some((start_row, num_rows))) {
            Ok((c, _, _)) => bools_of(c),
            Err(e) => Err(e),
        }
    }
}

impl ReadsCol for u8 {
    open spec fn read_result(c: ColumnValues, a: Option<int>, z: Option<int>, name: Seq<char>, r: Result<Vec<Self>>) -> bool {
        scaled_read::<u8>(c, a, z, name, r)
    }

    /// Read a numeric column: each cell times `TSCALn` plus `TZEROn`.
    fn read_col(file: &FitsFile, hdu: &FitsHdu, name: &str) -> (r: Result<Vec<Self>>) {
        match read_column_values(file, hdu, name, None) {
            Ok((c, a, z)) => ints_of::<u8>(c, a, z, name),
            Err(e) => Err(e),
        }
    }
}

impl ReadsColRange for u8 {
    /// Read a numeric column over a range of rows.
    fn read_col_range(file: &FitsFile, hdu: &FitsHdu, name: &str, start_row: usize, num_rows: usize) -> (r: Result<Vec<Self>>) {
        match read_column_values(file, hdu, name, Some((start_row, num_rows))) {
            Ok((c, a, z)) => ints_of::<u8>(c, a, z, name),
            Err(e) => Err(e),
        }
    }
}

impl ReadsCol for i8 {
    open spec fn read_result(c: ColumnValues, a: Option<int>, z: Option<int>, name: Seq<char>, r: Result<Vec<Self>>) -> bool {
        scaled_read::<i8>(c, a, z, name, r)
    }

    /// Read a numeric column: each cell times `TSCALn` plus `TZEROn`.
    fn read_col(file: &FitsFile, hdu: &FitsHdu, name: &str) -> (r: Result<Vec<Self>>) {
        match read_column_values(file, hdu, name, None) {
            Ok((c, a, z)) => ints_of::<i8>(c, a, z, name),
            Err(e) => Err(e),
        }
    }
}

impl ReadsColRange for i8 {
    /// Read a numeric column over a range of rows.
    fn read_col_range(file: &FitsFile, hdu: &FitsHdu, name: &str, start_row: usize, num_rows: usize) -> (r: Result<Vec<Self>>) {
        match read_column_values(file, hdu, name, Some((start_row, num_rows))) {
            Ok((c, a, z)) => ints_of::<i8>(c, a, z, name),
            Err(e) => Err(e),
        }
    }
}

impl ReadsCol for i16 {
    open spec fn read_result(c: ColumnValues, a: Option<int>, z: Option<int>, name: Seq<char>, r: Result<Vec<Self>>) -> bool {
        scaled_read::<i16>(c, a, z, name, r)
    }

    /// Read a numeric column: each cell times `TSCALn` plus `TZEROn`.
    fn read_col(file: &FitsFile, hdu: &FitsHdu, name: &str) -> (r: Result<Vec<Self>>) {
        match read_column_values(file, hdu, name, None) {
            Ok((c, a, z)) => ints_of::<i16>(c, a, z, name),
            Err(e) => Err(e),
        }
    }
}

impl ReadsColRange for i16 {
    /// Read a numeric column over a range of rows.
    fn read_col_range(file: &FitsFile, hdu: &FitsHdu, name: &str, start_row: usize, num_rows: usize) -> (r: Result<Vec<Self>>) {
        match read_column_values(file, hdu, name, Some((start_row, num_rows))) {
            Ok((c, a, z)) => ints_of::<i16>(c, a, z, name),
            Err(e) => Err(e),
        }
    }
}

impl ReadsCol for u16 {
    open spec fn read_result(c: ColumnValues, a: Option<int>, z: Option<int>, name: Seq<char>, r: Result<Vec<Self>>) -> bool {
        scaled_read::<u16>(c, a, z, name, r)
    }

    /// Read a numeric column: each cell times `TSCALn` plus `TZEROn`.
    fn read_col(file: &FitsFile, hdu: &FitsHdu, name: &str) -> (r: Result<Vec<Self>>) {
        match read_column_values(file, hdu, name, None) {
            Ok((c, a, z)) => ints_of::<u16>(c, a, z, name),
            Err(e) => Err(e),
        }
    }
}

impl ReadsColRange for u16 {
    /// Read a numeric column over a range of rows.
    fn read_col_range(file: &FitsFile, hdu: &FitsHdu, name: &str, start_row: usize, num_rows: usize) -> (r: Result<Vec<Self>>) {
        match read_column_values(file, hdu, name, Some((start_row, num_rows))) {
            Ok((c, a, z)) => ints_of::<u16>(c, a, z, name),
            Err(e) => Err(e),
        }
    }
}

impl ReadsCol for i32 {
    open spec fn read_result(c: ColumnValues, a: Option<int>, z: Option<int>, name: Seq<char>, r: Result<Vec<Self>>) -> bool {
        scaled_read::<i32>(c, a, z, name, r)
    }

    /// Read a numeric column: each cell times `TSCALn` plus `TZEROn`.
    fn read_col(file: &FitsFile, hdu: &FitsHdu, name: &str) -> (r: Result<Vec<Self>>) {
        match read_column_values(file, hdu, name, None) {
            Ok((c, a, z)) => ints_of::<i32>(c, a, z, name),
            Err(e) => Err(e),
        }
    }
}

impl ReadsColRange for i32 {
    /// Read a numeric column over a range of rows.
    fn read_col_range(file: &FitsFile, hdu: &FitsHdu, name: &str, start_row: usize, num_rows: usize) -> (r: Result<Vec<Self>>) {
        match read_column_values(file, hdu, name, Some((start_row, num_rows))) {
            Ok((c, a, z)) => ints_of::<i32>(c, a, z, name),
            Err(e) => Err(e),
        }
    }
}

impl ReadsCol for u32 {
    open spec fn read_result(c: ColumnValues, a: Option<int>, z: Option<int>, name: Seq<char>, r: Result<Vec<Self>>) -> bool {
        scaled_read::<u32>(c, a, z, name, r)
    }

    /// Read a numeric column: each cell times `TSCALn` plus `TZEROn`.
    fn read_col(file: &FitsFile, hdu: &FitsHdu, name: &str) -> (r: Result<Vec<Self>>) {
        match read_column_values(file, hdu, name, None) {
            Ok((c, a, z)) => ints_of::<u32>(c, a, z, name),
            Err(e) => Err(e),
        }
    }
}

impl ReadsColRange for u32 {
    /// Read a numeric column over a range of rows.
    fn read_col_range(file: &FitsFile, hdu: &FitsHdu, name: &str, start_row: usize, num_rows: usize) -> (r: Result<Vec<Self>>) {
        match read_column_values(file, hdu, name, Some((start_row, num_rows))) {
            Ok((c, a, z)) => ints_of::<u32>(c, a, z, name),
            Err(e) => Err(e),
        }
    }
}

impl ReadsCol for i64 {
    open spec fn read_result(c: ColumnValues, a: Option<int>, z: Option<int>, name: Seq<char>, r: Result<Vec<Self>>) -> bool {
        scaled_read::<i64>(c, a, z, name, r)
    }

    /// Read a numeric column: each cell times `TSCALn` plus `TZEROn`.
    fn read_col(file: &FitsFile, hdu: &FitsHdu, name: &str) -> (r: Result<Vec<Self>>) {
        match read_column_values(file, hdu, name, None) {
            Ok((c, a, z)) => ints_of::<i64>(c, a, z, name),
            Err(e) => Err(e),
        }
    }
}

impl ReadsColRange for i64 {
    /// Read a numeric column over a range of rows.
    fn read_col_range(file: &FitsFile, hdu: &FitsHdu, name: &str, start_row: usize, num_rows: usize) -> (r: Result<Vec<Self>>) {
        match read_column_values(file, hdu, name, Some((start_row, num_rows))) {
            Ok((c, a, z)) => ints_of::<i64>(c, a, z, name),
            Err(e) => Err(e),
        }
    }
}

// ── Writing a column ──

/// Where column `name` of HDU `index` of a file with bytes `data` lies.
pub enum ColumnTarget {
    /// The file's bytes do not parse.
    Unreadable(crate::error::Error),
    /// The file has no HDU of that index.
    NoHdu,
    /// The HDU is not a table.
    NotTable,
    /// No column of the table has that name.
    NoColumn(Seq<char>),
    /// The HDU and the column's 0-based index.
    Found(HduModel, nat),
}

/// Finding column `name` of HDU `index` of a file with bytes `data`.
pub open spec fn column_target(data: Seq<u8>, index: int, name: Seq<char>) -> ColumnTarget {
    match spec_parse_fits(data) {
        Err(e) => ColumnTarget::Unreadable(e),
        Ok(hs) => if index >= hs.len() {
            ColumnTarget::NoHdu
        } else {
            match table_fields(hs[index].info) {
                None => ColumnTarget::NotTable,
                Some(tf) => match column_index(hs[index].cards, name, tf as nat, 0) {
                    None => ColumnTarget::NoColumn(name),
                    Some(c) => ColumnTarget::Found(hs[index], c),
                },
            }
        },
    }
}

/// What writing a column gives.
pub enum ColumnWrite {
    /// The column was not found; why.
    NotFound(ColumnTarget),
    /// The table could not be read or written.
    Failed(crate::error::Error),
    /// The values cannot be stored; the message says why.
    Refused(Seq<char>),
    /// The new bytes of the file.
    Written(Seq<u8>),
}

/// The error that a failed column write gives.
pub open spec fn write_failed(w: ColumnWrite, index: int, e: Error) -> bool {
    match w {
        ColumnWrite::NotFound(ColumnTarget::Unreadable(f)) => e matches Error::Fits(g) && g == f,
        ColumnWrite::NotFound(ColumnTarget::NoHdu) => e matches Error::Message(m) && m@ == out_of_range_message(index),
        ColumnWrite::NotFound(ColumnTarget::NotTable) => e matches Error::Message(m) && m@ == "HDU is not a table"@,
        ColumnWrite::NotFound(ColumnTarget::NoColumn(name)) => e matches Error::Message(m) && m@ == no_column_message(name),
        ColumnWrite::NotFound(ColumnTarget::Found(_, _)) => false,
        ColumnWrite::Failed(f) => e matches Error::Fits(g) && g == f,
        ColumnWrite::Refused(msg) => e matches Error::Message(m) && m@ == msg,
        ColumnWrite::Written(_) => false,
    }
}

/// Writing `values` into every row of column `name` of HDU `index`.
pub open spec fn write_column_values(data: Seq<u8>, index: int, name: Seq<char>, values: ColumnValues) -> ColumnWrite {
    match column_target(data, index, name) {
        ColumnTarget::Found(h, c) => match spec_write_binary_column(data, h, c as int, values) {
            Err(e) => ColumnWrite::Failed(e),
            Ok(b) => ColumnWrite::Written(b),
        },
        k => ColumnWrite::NotFound(k),
    }
}

/// Column `name` of HDU `index` can be read and written without running
/// past the data, and its table's TFORM values can be cut before their
/// type codes.
pub open spec fn column_writable(data: Seq<u8>, index: int, name: Seq<char>) -> bool {
    &&& column_in_reach(data, index, name)
    &&& match spec_parse_fits(data) {
        Ok(hs) => 0 <= index < hs.len() ==> match table_fields(hs[index].info) {
            Some(tf) => tforms_sliceable(hs[index].cards, tf as nat),
            None => true,
        },
        Err(_) => true,
    }
}

/// Whether column `name` of HDU `index` of the file can be written.
pub fn column_writable_exec(file: &FitsFile, index: usize, name: &str) -> (b: bool)
    requires
        file@.data.len() + 2880 <= usize::MAX,
    ensures
        b == column_writable(file@.data, index as int, name@),
{
    if !column_in_reach_exec(file, index, name) {
        return false;
    }
    let fits_data = match parse_fits(file.data()) {
        Ok(f) => f,
        Err(_) => return true,
    };
    if index >= fits_data.hdus.len() {
        return true;
    }
    let h = &fits_data.hdus[index];
    match &h.info {
        HduInfo::BinaryTable { tfields, .. } => tforms_sliceable_exec(h.cards.as_slice(), *tfields),
        HduInfo::AsciiTable { tfields, .. } => tforms_sliceable_exec(h.cards.as_slice(), *tfields),
        _ => true,
    }
}

/// Find column `name` of the HDU: the file's HDUs and the column's index.
fn resolve_column(file: &FitsFile, hdu: &FitsHdu, name: &str) -> (r: Result<(FitsData, usize)>)
    requires
        file@.data.len() + 2880 <= usize::MAX,
    ensures
        match column_target(file@.data, hdu.hdu_index as int, name@) {
            ColumnTarget::Found(h, c) => r matches Ok((fd, ci)) && hdu.hdu_index < fd.hdus@.len()
                && fd.hdus@[hdu.hdu_index as int]@ == h && ci == c
                && spec_parse_fits(file@.data) == Ok::<Seq<HduModel>, crate::error::Error>(hdus_view(fd.hdus@)),
            k => r matches Err(e) && write_failed(ColumnWrite::NotFound(k), hdu.hdu_index as int, e),
        },
{
    let fits_data = match parse_fits(file.data()) {
        Ok(f) => f,
        Err(e) => return Err(Error::Fits(e)),
    };
    if hdu.hdu_index >= fits_data.hdus.len() {
        let digits = u64_decimal(hdu.hdu_index as u64);
        let d = string_from_bytes(digits.as_slice());
        let mut m = String::from_str("HDU index ");
        m.append(d.as_str());
        m.append(" out of range");
        proof {
            reveal_strlit("HDU index ");
            reveal_strlit(" out of range");
        }
        return Err(Error::Message(m));
    }
    let tfields = match &fits_data.hdus[hdu.hdu_index].info {
        HduInfo::BinaryTable { tfields, .. } => *tfields,
        HduInfo::AsciiTable { tfields, .. } => *tfields,
        _ => {
            proof {
                reveal_strlit("HDU is not a table");
            }
            return Err(Error::Message(String::from_str("HDU is not a table")));
        },
    };
    let col_idx = match find_column_index(fits_data.hdus[hdu.hdu_index].cards.as_slice(), name, tfields) {
        Some(c) => c,
        None => {
            let mut m = String::from_str("column '");
            m.append(name);
            m.append("' not found");
            proof {
                reveal_strlit("column '");
                reveal_strlit("' not found");
            }
            return Err(Error::Message(m));
        },
    };
    assert(hdus_view(fits_data.hdus@)[hdu.hdu_index as int] == fits_data.hdus@[hdu.hdu_index as int]@);
    Ok((fits_data, col_idx))
}

/// Write `values` into every row of column `name` of the HDU.
fn write_col_inner(file: &mut FitsFile, hdu: &FitsHdu, name: &str, values: &BinaryColumnData) -> (r: Result<()>)
    requires
        old(file)@.data.len() + 2880 <= usize::MAX,
        column_writable(old(file)@.data, hdu.hdu_index as int, name@),
    ensures
        final(file)@.filename == old(file)@.filename,
        final(file)@.mode == old(file)@.mode,
        match write_column_values(old(file)@.data, hdu.hdu_index as int, name@, values@) {
            ColumnWrite::Written(b) => r is Ok && final(file)@.data == b,
            w => r matches Err(e) && write_failed(w, hdu.hdu_index as int, e) && final(file)@.data == old(file)@.data,
        },
{
    let (fits_data, col_idx) = match resolve_column(file, hdu, name) {
        Ok(t) => t,
        Err(e) => return Err(e),
    };
    let new_data = match write_binary_column(file.data(), &fits_data.hdus[hdu.hdu_index], col_idx, values) {
        Ok(b) => b,
        Err(e) => return Err(Error::Fits(e)),
    };
    file.set_data(new_data);
    Ok(())
}

/// The cells to store for integer values `vals` in a column of type `t`
/// with scale `a` and offset `z`: each value less `z`, where `a` is 1 and
/// the column's storage type holds them all; else the message of the
/// refusal.
pub open spec fn stored_cells(vals: Seq<int>, t: BinaryColumnType, a: Option<int>, z: Option<int>, name: Seq<char>)
    -> core::result::Result<ColumnValues, Seq<char>> {
    match t {
        BinaryColumnType::Byte | BinaryColumnType::Short | BinaryColumnType::Int | BinaryColumnType::Long => match (a, z) {
            (Some(a), Some(z)) => if a != 1 {
                Err(column_float_message())
            } else {
                let raw = Seq::new(vals.len(), |i: int| vals[i] - z);
                match t {
                    BinaryColumnType::Byte => if forall|i: int| 0 <= i < raw.len() ==> 0 <= #[trigger] raw[i] <= 255 {
                        Ok(ColumnValues::Byte(Seq::new(raw.len(), |i: int| raw[i] as u8)))
                    } else {
                        Err(column_range_message(name))
                    },
                    BinaryColumnType::Short => if forall|i: int| 0 <= i < raw.len() ==> -32768 <= #[trigger] raw[i] <= 32767 {
                        Ok(ColumnValues::Short(Seq::new(raw.len(), |i: int| raw[i] as i16)))
                    } else {
                        Err(column_range_message(name))
                    },
                    BinaryColumnType::Int => if forall|i: int| 0 <= i < raw.len() ==> i32::MIN <= #[trigger] raw[i] <= i32::MAX {
                        Ok(ColumnValues::Int(Seq::new(raw.len(), |i: int| raw[i] as i32)))
                    } else {
                        Err(column_range_message(name))
                    },
                    _ => if forall|i: int| 0 <= i < raw.len() ==> i64::MIN <= #[trigger] raw[i] <= i64::MAX {
                        Ok(ColumnValues::Long(Seq::new(raw.len(), |i: int| raw[i] as i64)))
                    } else {
                        Err(column_range_message(name))
                    },
                }
            },
            _ => Err(column_float_message()),
        },
        BinaryColumnType::Float | BinaryColumnType::Double => Err(column_float_message()),
        _ => Err(not_numeric_message(name)),
    }
}

/// Writing integer values `vals` into column `name` of HDU `index`.
pub open spec fn write_scaled_values(data: Seq<u8>, index: int, name: Seq<char>, vals: Seq<int>) -> ColumnWrite {
    match column_target(data, index, name) {
        ColumnTarget::Found(h, c) => match spec_binary_columns(h.cards, table_fields(h.info)->Some_0 as nat) {
            Err(e) => ColumnWrite::Failed(e),
            Ok(cols) => match stored_cells(vals, cols[c as int].col_type, column_scale(h.cards, tscal_name(), c + 1, 1),
                column_scale(h.cards, tzero_name(), c + 1, 0), name) {
                Err(msg) => ColumnWrite::Refused(msg),
                Ok(cells) => write_column_values(data, index, name, cells),
            },
        },
        k => ColumnWrite::NotFound(k),
    }
}

/// The integers that values of `T` are.
pub open spec fn ints_of_values<T: PixelValue>(v: Seq<T>) -> Seq<int> {
    Seq::new(v.len(), |i: int| T::value_of(v[i]))
}

/// Types that can be written into a table column.
pub trait WritesCol: Sized {
    /// What writing `values` into column `name` of HDU `index` of a file
    /// with bytes `data` gives.
    spec fn write_outcome(data: Seq<u8>, index: int, name: Seq<char>, values: Seq<Self>) -> ColumnWrite;

    /// Write `values` into every row of column `name` of the HDU.
    fn write_col(file: &mut FitsFile, hdu: &FitsHdu, name: &str, data: &[Self]) -> (r: Result<()>)
        requires
            old(file)@.data.len() + 2880 <= usize::MAX,
            column_writable(old(file)@.data, hdu.hdu_index as int, name@),
        ensures
            final(file)@.filename == old(file)@.filename,
            final(file)@.mode == old(file)@.mode,
            match Self::write_outcome(old(file)@.data, hdu.hdu_index as int, name@, data@) {
                ColumnWrite::Written(b) => r is Ok && final(file)@.data == b,
                w => r matches Err(e) && write_failed(w, hdu.hdu_index as int, e) && final(file)@.data == old(file)@.data,
            };
}

impl WritesCol for String {
    open spec fn write_outcome(data: Seq<u8>, index: int, name: Seq<char>, values: Seq<Self>) -> ColumnWrite {
        write_column_values(data, index, name, ColumnValues::Ascii(Seq::new(values.len(), |i: int| values[i]@)))
    }

    /// Write a character column.
    fn write_col(file: &mut FitsFile, hdu: &FitsHdu, name: &str, data: &[Self]) -> (r: Result<()>) {
        let mut texts: Vec<String> = Vec::new();
        let mut i: usize = 0;
        while i < data.len()
            invariant
                i <= data@.len(),
                texts@.len() == i,
                forall|j: int| 0 <= j < i ==> #[trigger] texts@[j]@ == data@[j]@,
            decreases data@.len() - i,
        {
            texts.push(data[i].clone());
            i += 1;
        }
        assert(Seq::new(texts@.len(), |j: int| texts@[j]@) =~= Seq::new(data@.len(), |j: int| data@[j]@));
        let values = BinaryColumnData::Ascii(texts);
        write_col_inner(file, hdu, name, &values)
    }
}

/// The cells to store for integers `vals`, as [`stored_cells`] gives them.
fn stored_cells_exec(vals: &Vec<i128>, t: &BinaryColumnType, a: Option<i128>, z: Option<i128>, name: &str)
    -> (r: Result<BinaryColumnData>)
    requires
        z matches Some(x) ==> -0x1_0000_0000_0000_0000 <= x <= 0x1_0000_0000_0000_0000,
        forall|i: int| 0 <= i < vals@.len() ==> -0x1_0000_0000_0000_0000 <= #[trigger] vals@[i] <= 0x1_0000_0000_0000_0000,
    ensures
        match stored_cells(vals@.map_values(|x: i128| x as int), *t, opt_int(a), opt_int(z), name@) {
            Ok(c) => r matches Ok(d) && d@ == c,
            Err(msg) => r matches Err(Error::Message(m)) && m@ == msg,
        },
{
    let ghost iv = vals@.map_values(|x: i128| x as int);
    match t {
        BinaryColumnType::Byte | BinaryColumnType::Short | BinaryColumnType::Int | BinaryColumnType::Long => {},
        BinaryColumnType::Float | BinaryColumnType::Double => return Err(column_float_error()),
        _ => {
            let mut m = String::from_str("column '");
            m.append(name);
            m.append("' is not numeric type");
            proof {
                reveal_strlit("column '");
                reveal_strlit("' is not numeric type");
            }
            return Err(Error::Message(m));
        },
    }
    let zz = match (a, z) {
        (Some(sa), Some(sz)) => if sa != 1 {
            return Err(column_float_error());
        } else {
            sz
        },
        _ => return Err(column_float_error()),
    };
    let ghost raw = Seq::new(iv.len(), |i: int| iv[i] - zz);
    let (lo, hi): (i128, i128) = match t {
        BinaryColumnType::Byte => (0, 255),
        BinaryColumnType::Short => (-32768, 32767),
        BinaryColumnType::Int => (-2147483648, 2147483647),
        _ => (-9223372036854775808, 9223372036854775807),
    };
    let mut out: Vec<i64> = Vec::new();
    let mut i: usize = 0;
    while i < vals.len()
        invariant
            i <= vals@.len(),
            iv == vals@.map_values(|x: i128| x as int),
            raw == Seq::new(iv.len(), |k: int| iv[k] - zz),
            -0x1_0000_0000_0000_0000 <= zz <= 0x1_0000_0000_0000_0000,
            forall|q: int| 0 <= q < vals@.len() ==> -0x1_0000_0000_0000_0000 <= #[trigger] vals@[q] <= 0x1_0000_0000_0000_0000,
            a == Some(1i128),
            z == Some(zz),
            *t == BinaryColumnType::Byte || *t == BinaryColumnType::Short || *t == BinaryColumnType::Int || *t == BinaryColumnType::Long,
            out@.len() == i,
            -9223372036854775808 <= lo <= hi <= 9223372036854775807,
            *t == BinaryColumnType::Byte ==> lo == 0 && hi == 255,
            *t == BinaryColumnType::Short ==> lo == -32768 && hi == 32767,
            *t == BinaryColumnType::Int ==> lo == i32::MIN && hi == i32::MAX,
            !(*t == BinaryColumnType::Byte || *t == BinaryColumnType::Short || *t == BinaryColumnType::Int) ==> lo == i64::MIN && hi == i64::MAX,
            forall|j: int| 0 <= j < i ==> lo <= #[trigger] raw[j] <= hi && out@[j] == raw[j],
        decreases vals@.len() - i,
    {
        let x = vals[i];
        if x < zz + lo || x > zz + hi {
            proof {
                assert(iv[i as int] == x);
                assert(!(lo <= raw[i as int] <= hi));
                assert(!(forall|j: int| 0 <= j < raw.len() ==> lo <= #[trigger] raw[j] <= hi));
                
            }
            return Err(column_range_error(name));
        }
        out.push((x - zz) as i64);
        i += 1;
    }
    assert(forall|j: int| 0 <= j < raw.len() ==> lo <= #[trigger] raw[j] <= hi);
    assert forall|j: int| 0 <= j < out@.len() implies lo <= #[trigger] out@[j] <= hi by {
        assert(lo <= raw[j] <= hi);
    }
    match t {
        BinaryColumnType::Byte => {
            let mut v: Vec<u8> = Vec::new();
            let mut k: usize = 0;
            while k < out.len()
                invariant
                    k <= out@.len(),
                    v@.len() == k,
                    forall|j: int| 0 <= j < out@.len() ==> 0 <= #[trigger] out@[j] <= 255,
                    forall|j: int| 0 <= j < k ==> #[trigger] v@[j] == out@[j] as u8,
                decreases out@.len() - k,
            {
                v.push(out[k] as u8);
                k += 1;
            }
            assert(v@ =~= Seq::new(raw.len(), |j: int| raw[j] as u8));
            let d = BinaryColumnData::Byte(v);
            assert(d@ == ColumnValues::Byte(Seq::new(raw.len(), |j: int| raw[j] as u8)));
            Ok(d)
        },
        BinaryColumnType::Short => {
            let mut v: Vec<i16> = Vec::new();
            let mut k: usize = 0;
            while k < out.len()
                invariant
                    k <= out@.len(),
                    v@.len() == k,
                    forall|j: int| 0 <= j < out@.len() ==> -32768 <= #[trigger] out@[j] <= 32767,
                    forall|j: int| 0 <= j < k ==> #[trigger] v@[j] == out@[j] as i16,
                decreases out@.len() - k,
            {
                v.push(out[k] as i16);
                k += 1;
            }
            assert(v@ =~= Seq::new(raw.len(), |j: int| raw[j] as i16));
            let d = BinaryColumnData::Short(v);
            assert(d@ == ColumnValues::Short(Seq::new(raw.len(), |j: int| raw[j] as i16)));
            Ok(d)
        },
        BinaryColumnType::Int => {
            let mut v: Vec<i32> = Vec::new();
            let mut k: usize = 0;
            while k < out.len()
                invariant
                    k <= out@.len(),
                    v@.len() == k,
                    forall|j: int| 0 <= j < out@.len() ==> i32::MIN <= #[trigger] out@[j] <= i32::MAX,
                    forall|j: int| 0 <= j < k ==> #[trigger] v@[j] == out@[j] as i32,
                decreases out@.len() - k,
            {
                v.push(out[k] as i32);
                k += 1;
            }
            assert(v@ =~= Seq::new(raw.len(), |j: int| raw[j] as i32));
            let d = BinaryColumnData::Int(v);
            assert(d@ == ColumnValues::Int(Seq::new(raw.len(), |j: int| raw[j] as i32)));
            Ok(d)
        },
        _ => {
            assert(out@ =~= Seq::new(raw.len(), |j: int| raw[j] as i64));
            let d = BinaryColumnData::Long(out);
            Ok(d)
        },
    }
}

/// Write integer values of `T` into every row of column `name` of the HDU.
fn write_scaled<T: PixelValue + Copy>(file: &mut FitsFile, hdu: &FitsHdu, name: &str, data: &[T], vals: Vec<i128>) -> (r: Result<()>)
    requires
        old(file)@.data.len() + 2880 <= usize::MAX,
        column_writable(old(file)@.data, hdu.hdu_index as int, name@),
        vals@.map_values(|x: i128| x as int) == ints_of_values(data@),
        forall|i: int| 0 <= i < vals@.len() ==> -0x1_0000_0000_0000_0000 <= #[trigger] vals@[i] <= 0x1_0000_0000_0000_0000,
    ensures
        final(file)@.filename == old(file)@.filename,
        final(file)@.mode == old(file)@.mode,
        match write_scaled_values(old(file)@.data, hdu.hdu_index as int, name@, ints_of_values(data@)) {
            ColumnWrite::Written(b) => r is Ok && final(file)@.data == b,
            w => r matches Err(e) && write_failed(w, hdu.hdu_index as int, e) && final(file)@.data == old(file)@.data,
        },
{
    let cells = {
        let (fits_data, col_idx) = match resolve_column(file, hdu, name) {
            Ok(t) => t,
            Err(e) => return Err(e),
        };
        let core_hdu = &fits_data.hdus[hdu.hdu_index];
        let tfields = match &core_hdu.info {
            HduInfo::BinaryTable { tfields, .. } => *tfields,
            HduInfo::AsciiTable { tfields, .. } => *tfields,
            _ => return Err(Error::Message(String::from_str("HDU is not a table"))),
        };
        let columns = match parse_binary_table_columns(core_hdu.cards.as_slice(), tfields) {
            Ok(c) => c,
            Err(e) => return Err(Error::Fits(e)),
        };
        proof {
            lemma_column_index_range(cards_view(core_hdu.cards@), name@, tfields as nat, 0);
            crate::bintable::lemma_binary_columns_wf(cards_view(core_hdu.cards@), tfields as nat);
            assert(binary_columns_view(columns@)[col_idx as int] == columns@[col_idx as int]@);
        }
        let tscal: [u8; 5] = [84u8, 83u8, 67u8, 65u8, 76u8];
        let tzero: [u8; 5] = [84u8, 90u8, 69u8, 82u8, 79u8];
        assert(tscal@ == tscal_name());
        assert(tzero@ == tzero_name());
        let a = column_scale_exec(core_hdu.cards.as_slice(), &tscal, col_idx + 1, 1);
        let z = column_scale_exec(core_hdu.cards.as_slice(), &tzero, col_idx + 1, 0);
        match stored_cells_exec(&vals, &columns[col_idx].col_type, a, z, name) {
            Ok(c) => c,
            Err(e) => return Err(e),
        }
    };
    write_col_inner(file, hdu, name, &cells)
}

/// The integers that values of `T` are, widened.
fn widen<T: PixelValue + Copy>(data: &[T]) -> (r: Vec<i128>)
    ensures
        r@.map_values(|x: i128| x as int) == ints_of_values(data@),
        forall|i: int| 0 <= i < r@.len() ==> -0x1_0000_0000_0000_0000 <= #[trigger] r@[i] <= 0x1_0000_0000_0000_0000,
{
    let mut out: Vec<i128> = Vec::new();
    let mut i: usize = 0;
    while i < data.len()
        invariant
            i <= data@.len(),
            out@.len() == i,
            forall|j: int| 0 <= j < i ==> #[trigger] out@[j] == T::value_of(data@[j]),
            forall|j: int| 0 <= j < i ==> -0x1_0000_0000_0000_0000 <= #[trigger] out@[j] <= 0x1_0000_0000_0000_0000,
        decreases data@.len() - i,
    {
        out.push(T::to_exact(data[i]));
        i += 1;
    }
    assert(out@.map_values(|x: i128| x as int) =~= ints_of_values(data@));
    out
}

impl WritesCol for u8 {
    open spec fn write_outcome(data: Seq<u8>, index: int, name: Seq<char>, values: Seq<Self>) -> ColumnWrite {
        write_scaled_values(data, index, name, ints_of_values(values))
    }

    /// Write a numeric column: each value less `TZEROn`, in the column's
    /// storage type.
    fn write_col(file: &mut FitsFile, hdu: &FitsHdu, name: &str, data: &[Self]) -> (r: Result<()>) {
        let vals = widen(data);
        write_scaled(file, hdu, name, data, vals)
    }
}

impl WritesCol for i8 {
    open spec fn write_outcome(data: Seq<u8>, index: int, name: Seq<char>, values: Seq<Self>) -> ColumnWrite {
        write_scaled_values(data, index, name, ints_of_values(values))
    }

    /// Write a numeric column: each value less `TZEROn`, in the column's
    /// storage type.
    fn write_col(file: &mut FitsFile, hdu: &FitsHdu, name: &str, data: &[Self]) -> (r: Result<()>) {
        let vals = widen(data);
        write_scaled(file, hdu, name, data, vals)
    }
}

impl WritesCol for i16 {
    open spec fn write_outcome(data: Seq<u8>, index: int, name: Seq<char>, values: Seq<Self>) -> ColumnWrite {
        write_scaled_values(data, index, name, ints_of_values(values))
    }

    /// Write a numeric column: each value less `TZEROn`, in the column's
    /// storage type.
    fn write_col(file: &mut FitsFile, hdu: &FitsHdu, name: &str, data: &[Self]) -> (r: Result<()>) {
        let vals = widen(data);
        write_scaled(file, hdu, name, data, vals)
    }
}

impl WritesCol for u16 {
    open spec fn write_outcome(data: Seq<u8>, index: int, name: Seq<char>, values: Seq<Self>) -> ColumnWrite {
        write_scaled_values(data, index, name, ints_of_values(values))
    }

    /// Write a numeric column: each value less `TZEROn`, in the column's
    /// storage type.
    fn write_col(file: &mut FitsFile, hdu: &FitsHdu, name: &str, data: &[Self]) -> (r: Result<()>) {
        let vals = widen(data);
        write_scaled(file, hdu, name, data, vals)
    }
}

impl WritesCol for i32 {
    open spec fn write_outcome(data: Seq<u8>, index: int, name: Seq<char>, values: Seq<Self>) -> ColumnWrite {
        write_scaled_values(data, index, name, ints_of_values(values))
    }

    /// Write a numeric column: each value less `TZEROn`, in the column's
    /// storage type.
    fn write_col(file: &mut FitsFile, hdu: &FitsHdu, name: &str, data: &[Self]) -> (r: Result<()>) {
        let vals = widen(data);
        write_scaled(file, hdu, name, data, vals)
    }
}

impl WritesCol for u32 {
    open spec fn write_outcome(data: Seq<u8>, index: int, name: Seq<char>, values: Seq<Self>) -> ColumnWrite {
        write_scaled_values(data, index, name, ints_of_values(values))
    }

    /// Write a numeric column: each value less `TZEROn`, in the column's
    /// storage type.
    fn write_col(file: &mut FitsFile, hdu: &FitsHdu, name: &str, data: &[Self]) -> (r: Result<()>) {
        let vals = widen(data);
        write_scaled(file, hdu, name, data, vals)
    }
}

impl WritesCol for i64 {
    open spec fn write_outcome(data: Seq<u8>, index: int, name: Seq<char>, values: Seq<Self>) -> ColumnWrite {
        write_scaled_values(data, index, name, ints_of_values(values))
    }

    /// Write a numeric column: each value less `TZEROn`, in the column's
    /// storage type.
    fn write_col(file: &mut FitsFile, hdu: &FitsHdu, name: &str, data: &[Self]) -> (r: Result<()>) {
        let vals = widen(data);
        write_scaled(file, hdu, name, data, vals)
    }
}

impl ReadsCol for u64 {
    open spec fn read_result(c: ColumnValues, a: Option<int>, z: Option<int>, name: Seq<char>, r: Result<Vec<Self>>) -> bool {
        scaled_read::<u64>(c, a, z, name, r)
    }

    /// Read a numeric column: each cell times `TSCALn` plus `TZEROn`.
    fn read_col(file: &FitsFile, hdu: &FitsHdu, name: &str) -> (r: Result<Vec<Self>>) {
        match read_column_values(file, hdu, name, None) {
            Ok((c, a, z)) => ints_of::<u64>(c, a, z, name),
            Err(e) => Err(e),
        }
    }
}

impl ReadsColRange for u64 {
    /// Read a numeric column over a range of rows.
    fn read_col_range(file: &FitsFile, hdu: &FitsHdu, name: &str, start_row: usize, num_rows: usize) -> (r: Result<Vec<Self>>) {
        match read_column_values(file, hdu, name, Some((start_row, num_rows))) {
            Ok((c, a, z)) => ints_of::<u64>(c, a, z, name),
            Err(e) => Err(e),
        }
    }
}

impl WritesCol for u64 {
    open spec fn write_outcome(data: Seq<u8>, index: int, name: Seq<char>, values: Seq<Self>) -> ColumnWrite {
        write_scaled_values(data, index, name, ints_of_values(values))
    }

    /// Write a numeric column: each value less `TZEROn`, in the column's
    /// storage type.
    fn write_col(file: &mut FitsFile, hdu: &FitsHdu, name: &str, data: &[Self]) -> (r: Result<()>) {
        let vals = widen(data);
        write_scaled(file, hdu, name, data, vals)
    }
}

} // verus!
