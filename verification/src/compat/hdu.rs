//! Handles to the HDUs of a file, in the style of the `fitsio` crate.
use vstd::prelude::*;

use super::errors::{Error, Result};
use super::fitsfile::FitsFile;
use super::headers::{key_lookup, key_written, lookup_failed, wrong_kind_message, KeyLookup, ReadsKey, WritesKey};
use super::fitsfile::bzero_keyword;
use super::tables::{column_in_reach, column_outcome, column_read, column_read_rows, column_writable, write_failed, ColumnWrite, ReadsCol, ReadsColRange, WritesCol};
use super::images::{int_equivalent, spec_from_bitpix, spec_int_equivalent, stored_range, ImageType};
use crate::hdu::{find_valued, first_valued, lemma_first_valued, ValueKind};
use crate::header::{cards_view, kw, kw_pad, Card, CardModel};
use crate::value::{Value, ValueModel};
use crate::hdu::{parse_fits, spec_parse_fits, HduInfoModel};
use crate::text::{ascii_chars, decimal_integer, decimal_integer_exec, int_decimal, string_from_bytes, u64_decimal};

verus! {

/// Lightweight handle to one HDU within a FITS file.
///
/// This stores only the index; the underlying data is always accessed
/// through the `FitsFile`.
#[derive(Debug, Clone)]
pub struct FitsHdu {
    pub hdu_index: usize,
}

/// Describes the kind and shape of data stored in an HDU.
#[derive(Debug, Clone, PartialEq)]
pub enum HduInfo {
    ImageInfo {
        shape: Vec<usize>,
        image_type: ImageType,
    },
    TableInfo {
        column_count: usize,
        row_count: usize,
    },
    AnyInfo,
}

/// The BITPIX and shape of an HDU that holds an image (the pixels'
/// BITPIX and axes for a compressed one), or `None` for a table.
pub open spec fn image_of(info: HduInfoModel) -> Option<(i64, Seq<usize>)> {
    match info {
        HduInfoModel::Primary { bitpix, naxes } => Some((bitpix, naxes)),
        HduInfoModel::Image { bitpix, naxes } => Some((bitpix, naxes)),
        HduInfoModel::RandomGroups { bitpix, naxes, .. } => Some((bitpix, naxes)),
        HduInfoModel::CompressedImage { zbitpix, znaxes, .. } => Some((zbitpix, znaxes)),
        _ => None,
    }
}

/// The rows and columns of a table HDU.
pub open spec fn table_of(info: HduInfoModel) -> Option<(usize, usize)> {
    match info {
        HduInfoModel::AsciiTable { naxis2, tfields, .. } => Some((tfields, naxis2)),
        HduInfoModel::BinaryTable { naxis2, tfields, .. } => Some((tfields, naxis2)),
        _ => None,
    }
}

/// The `BSCALE` keyword.
pub open spec fn bscale_keyword() -> Seq<u8> {
    kw_pad(seq![66u8, 83u8, 67u8, 65u8, 76u8, 69u8])
}

/// The value of the first card with keyword `k` holding a number: `default`
/// when there is none, `None` when that number is not an integer (a real
/// literal counts when its fraction is zeros and its magnitude fits in a
/// `u64`).
pub open spec fn scale_of(cards: Seq<CardModel>, k: Seq<u8>, default: int) -> Option<int> {
    match first_valued(cards, k, ValueKind::Number, 0) {
        None => Some(default),
        Some(i) => match cards[i].value {
            Some(ValueModel::Integer(n)) => Some(n),
            Some(ValueModel::Float(t)) => decimal_integer(t),
            _ => None,
        },
    }
}

/// The type of an image's physical values: the equivalent type of its
/// stored type under its BSCALE and BZERO; when these matter and are not
/// both integers, `Float` for 8- and 16-bit storage and `Double` for 32-bit.
pub open spec fn equivalent_of(stored: ImageType, cards: Seq<CardModel>) -> ImageType {
    if stored_range(stored) is None {
        stored
    } else {
        match (scale_of(cards, bscale_keyword(), 1), scale_of(cards, bzero_keyword(), 0)) {
            (Some(a), Some(b)) => spec_int_equivalent(stored, a, b),
            _ => if stored is UnsignedByte || stored is Short { ImageType::Float } else { ImageType::Double },
        }
    }
}

/// The integer value of the first numeric card with keyword `k`.
pub(crate) fn integer_scale(cards: &[Card], k: &[u8; 8], default: i64) -> (r: Option<i128>)
    ensures
        r matches Some(n) ==> scale_of(cards_view(cards@), k@, default as int) == Some(n as int),
        r is None ==> scale_of(cards_view(cards@), k@, default as int) is None,
        r matches Some(n) ==> -0x1_0000_0000_0000_0000 <= n <= 0x1_0000_0000_0000_0000,
{
    proof { lemma_first_valued(cards_view(cards@), k@, ValueKind::Number, 0); }
    match find_valued(cards, k, ValueKind::Number) {
        None => Some(default as i128),
        Some(i) => {
            assert(cards_view(cards@)[i as int] == cards@[i as int]@);
            match &cards[i].value {
                Some(Value::Integer(n)) => Some(*n as i128),
                Some(Value::Float(t)) => decimal_integer_exec(t.as_str()),
                _ => None,
            }
        },
    }
}

/// The type of the physical values of an image stored as `stored`.
fn physical_type(stored: ImageType, cards: &[Card]) -> (r: Result<ImageType>)
    ensures
        r == Ok::<ImageType, Error>(equivalent_of(stored, cards_view(cards@))),
{
    match stored {
        ImageType::UnsignedByte | ImageType::Short | ImageType::Long => {},
        _ => return Ok(stored),
    }
    let ks = kw(&[66u8, 83u8, 67u8, 65u8, 76u8, 69u8]);
    let kz = kw(&[66u8, 90u8, 69u8, 82u8, 79u8]);
    assert(seq![66u8, 83u8, 67u8, 65u8, 76u8, 69u8] =~= [66u8, 83u8, 67u8, 65u8, 76u8, 69u8]@);
    assert(seq![66u8, 90u8, 69u8, 82u8, 79u8] =~= [66u8, 90u8, 69u8, 82u8, 79u8]@);
    match (integer_scale(cards, &ks, 1), integer_scale(cards, &kz, 0)) {
        (Some(a), Some(b)) => Ok(int_equivalent(stored, a, b)),
        _ => match stored {
            ImageType::UnsignedByte | ImageType::Short => Ok(ImageType::Float),
            _ => Ok(ImageType::Double),
        },
    }
}

/// The message for an HDU index past the last HDU.
pub open spec fn out_of_range_message(index: int) -> Seq<char> {
    "HDU index "@ + ascii_chars(int_decimal(index)) + " out of range"@
}

impl FitsHdu {
    /// Read a header keyword value from this HDU.
    pub fn read_key<T: ReadsKey>(&self, file: &FitsFile, name: &str) -> (r: Result<T>)
        requires
            file@.data.len() + 2880 <= usize::MAX,
        ensures
            match key_lookup(file@.data, self.hdu_index as int, name@) {
                KeyLookup::Found(v) => if T::accepts(v) {
                    r matches Ok(x) && T::reads_as(v, x)
                } else {
                    r matches Err(Error::Message(m)) && m@ == wrong_kind_message(name@, T::kind_name())
                },
                k => r matches Err(e) && lookup_failed(k, self.hdu_index as int, name@, e),
            },
    {
        T::read_key(file, self, name)
    }

    /// Read all rows of a table column, found by its TTYPE name.
    pub fn read_col<T: ReadsCol>(&self, file: &FitsFile, name: &str) -> (r: Result<Vec<T>>)
        requires
            file@.data.len() + 2880 <= usize::MAX,
            column_in_reach(file@.data, self.hdu_index as int, name@),
        ensures
            column_outcome(column_read(file@.data, self.hdu_index as int, name@), self.hdu_index as int, name@, r),
    {
        T::read_col(file, self, name)
    }

    /// Read a range of rows of a table column, found by its TTYPE name.
    pub fn read_col_range<T: ReadsColRange>(&self, file: &FitsFile, name: &str, start_row: usize, num_rows: usize)
        -> (r: Result<Vec<T>>)
        requires
            file@.data.len() + 2880 <= usize::MAX,
            column_in_reach(file@.data, self.hdu_index as int, name@),
        ensures
            column_outcome(column_read_rows(file@.data, self.hdu_index as int, name@, Some((start_row as int, num_rows as int))),
                self.hdu_index as int, name@, r),
    {
        T::read_col_range(file, self, name, start_row, num_rows)
    }

    /// Write values into every row of a table column, found by its TTYPE
    /// name.
    pub fn write_col<T: WritesCol>(&self, file: &mut FitsFile, name: &str, data: &[T]) -> (r: Result<()>)
        requires
            old(file)@.data.len() + 2880 <= usize::MAX,
            column_writable(old(file)@.data, self.hdu_index as int, name@),
        ensures
            final(file)@.filename == old(file)@.filename,
            final(file)@.mode == old(file)@.mode,
            match T::write_outcome(old(file)@.data, self.hdu_index as int, name@, data@) {
                ColumnWrite::Written(b) => r is Ok && final(file)@.data == b,
                w => r matches Err(e) && write_failed(w, self.hdu_index as int, e) && final(file)@.data == old(file)@.data,
            },
    {
        T::write_col(file, self, name, data)
    }

    /// Write a header keyword value to this HDU.
    pub fn write_key<T: WritesKey>(&self, file: &mut FitsFile, name: &str, value: &T) -> (r: Result<()>)
        requires
            old(file)@.data.len() + 2 * 2880 <= usize::MAX,
        ensures
            final(file)@.filename == old(file)@.filename,
            final(file)@.mode == old(file)@.mode,
            key_written(old(file)@.data, final(file)@.data, self.hdu_index as int, name@, T::stored(value), r),
    {
        T::write_key(file, self, name, value)
    }

    /// Return information about the type and shape of data in this HDU.
    ///
    /// An image's type is the type of its physical values under BSCALE and
    /// BZERO (a BITPIX = 16 image with BZERO = 32768 is `UnsignedShort`).
    pub fn info(&self, file: &FitsFile) -> (r: Result<HduInfo>)
        requires
            file@.data.len() + 2880 <= usize::MAX,
        ensures
            match spec_parse_fits(file@.data) {
                Err(e) => r matches Err(Error::Fits(f)) && f == e,
                Ok(hs) => if self.hdu_index >= hs.len() {
                    r matches Err(Error::Message(m)) && m@ == out_of_range_message(self.hdu_index as int)
                } else {
                    match (image_of(hs[self.hdu_index as int].info), table_of(hs[self.hdu_index as int].info)) {
                        (Some((bitpix, shape)), _) => match spec_from_bitpix(bitpix) {
                            Some(t) => r matches Ok(HduInfo::ImageInfo { shape: s, image_type }) && s@ == shape
                                && image_type == equivalent_of(t, hs[self.hdu_index as int].cards),
                            None => r matches Err(Error::Message(_)),
                        },
                        (None, Some((cols, rows))) => r matches Ok(HduInfo::TableInfo { column_count, row_count })
                            && column_count == cols && row_count == rows,
                        (None, None) => false,
                    }
                },
            },
    {
        let fits_data = match parse_fits(file.data()) {
            Ok(f) => f,
            Err(e) => return Err(Error::Fits(e)),
        };
        if self.hdu_index >= fits_data.hdus.len() {
            let digits = u64_decimal(self.hdu_index as u64);
            let d = string_from_bytes(digits.as_slice());
            let mut m = String::from_str("HDU index ");
            m.append(d.as_str());
            m.append(" out of range");
            return Err(Error::Message(m));
        }
        let hdu = &fits_data.hdus[self.hdu_index];
        match &hdu.info {
            crate::hdu::HduInfo::Primary { bitpix, naxes } => {
                let stored = match ImageType::from_bitpix(*bitpix) {
                    Ok(t) => t,
                    Err(e) => return Err(e),
                };
                let image_type = match physical_type(stored, hdu.cards.as_slice()) {
                    Ok(t) => t,
                    Err(e) => return Err(e),
                };
                Ok(HduInfo::ImageInfo { shape: naxes.clone(), image_type })
            },
            crate::hdu::HduInfo::Image { bitpix, naxes } => {
                let stored = match ImageType::from_bitpix(*bitpix) {
                    Ok(t) => t,
                    Err(e) => return Err(e),
                };
                let image_type = match physical_type(stored, hdu.cards.as_slice()) {
                    Ok(t) => t,
                    Err(e) => return Err(e),
                };
                Ok(HduInfo::ImageInfo { shape: naxes.clone(), image_type })
            },
            crate::hdu::HduInfo::AsciiTable { naxis2, tfields, .. } => Ok(HduInfo::TableInfo {
                column_count: *tfields,
                row_count: *naxis2,
            }),
            crate::hdu::HduInfo::BinaryTable { naxis2, tfields, .. } => Ok(HduInfo::TableInfo {
                column_count: *tfields,
                row_count: *naxis2,
            }),
            crate::hdu::HduInfo::RandomGroups { bitpix, naxes, .. } => {
                let stored = match ImageType::from_bitpix(*bitpix) {
                    Ok(t) => t,
                    Err(e) => return Err(e),
                };
                let image_type = match physical_type(stored, hdu.cards.as_slice()) {
                    Ok(t) => t,
                    Err(e) => return Err(e),
                };
                Ok(HduInfo::ImageInfo { shape: naxes.clone(), image_type })
            },
            crate::hdu::HduInfo::CompressedImage { zbitpix, znaxes, .. } => {
                let stored = match ImageType::from_bitpix(*zbitpix) {
                    Ok(t) => t,
                    Err(e) => return Err(e),
                };
                let image_type = match physical_type(stored, hdu.cards.as_slice()) {
                    Ok(t) => t,
                    Err(e) => return Err(e),
                };
                Ok(HduInfo::ImageInfo { shape: znaxes.clone(), image_type })
            },
        }
    }
}

} // verus!
