//! Image types of the `fitsio`-style API.
use vstd::prelude::*;

use super::errors::{Error, Result};
use super::fitsfile::FitsFile;
use super::hdu::{out_of_range_message, FitsHdu};
use crate::block::{lemma_padded_len_bounds, padded_byte_len, spec_pad_blocks, spec_padded_len};
use crate::hdu::{hdus_view, parse_fits, spec_parse_fits};
use crate::image::{be_pixels, i16_values, i32_values, i64_values, serialize_image_i16, serialize_image_i32, serialize_image_i64, serialize_image_u8};
use crate::text::{ascii_chars, int_decimal, i64_decimal, string_from_bytes, u64_decimal};
use super::fitsfile::bzero_keyword;
use super::hdu::{bscale_keyword, integer_scale, scale_of};
use crate::hdu::HduInfo;
use crate::image::{read_image_data, spec_read_image_data, ImageData, ImageValues};
use crate::header::kw;
use crate::tiled::{check_tiled_readable, tiled_readable};

verus! {

/// Describes the shape and type of an image HDU.
#[derive(Debug, Clone, PartialEq)]
pub struct ImageDescription {
    pub data_type: ImageType,
    pub dimensions: Vec<usize>,
}

/// The pixel data type for an image HDU.
#[derive(Debug, Clone, Copy, PartialEq, Eq)]
pub enum ImageType {
    UnsignedByte,
    /// Signed 8-bit (`i8`): stored as `BITPIX = 8` with `BZERO = -128`.
    Byte,
    Short,
    /// Unsigned 16-bit (`u16`): stored as `BITPIX = 16` with `BZERO = 32768`.
    UnsignedShort,
    Long,
    /// Unsigned 32-bit (`u32`): stored as `BITPIX = 32` with `BZERO = 2^31`.
    UnsignedLong,
    LongLong,
    /// Unsigned 64-bit (`u64`): stored as `BITPIX = 64` with `BZERO = 2^63`.
    UnsignedLongLong,
    Float,
    Double,
}

/// The BITPIX that stores each image type.
pub open spec fn spec_to_bitpix(t: ImageType) -> i64 {
    match t {
        ImageType::UnsignedByte | ImageType::Byte => 8,
        ImageType::Short | ImageType::UnsignedShort => 16,
        ImageType::Long | ImageType::UnsignedLong => 32,
        ImageType::LongLong | ImageType::UnsignedLongLong => 64,
        ImageType::Float => -32i64,
        ImageType::Double => -64i64,
    }
}

/// The image type that a BITPIX names (the signed or floating type).
pub open spec fn spec_from_bitpix(bitpix: i64) -> Option<ImageType> {
    if bitpix == 8 {
        Some(ImageType::UnsignedByte)
    } else if bitpix == 16 {
        Some(ImageType::Short)
    } else if bitpix == 32 {
        Some(ImageType::Long)
    } else if bitpix == 64 {
        Some(ImageType::LongLong)
    } else if bitpix == -32 {
        Some(ImageType::Float)
    } else if bitpix == -64 {
        Some(ImageType::Double)
    } else {
        None
    }
}

/// The `BZERO` that stores an unsigned type (or the signed byte) in the
/// signed type of its BITPIX, as cfitsio does: the sign bit flipped.
pub open spec fn spec_unsigned_bzero(t: ImageType) -> Option<crate::value::ValueModel> {
    match t {
        ImageType::Byte => Some(crate::value::ValueModel::Integer(-128)),
        ImageType::UnsignedShort => Some(crate::value::ValueModel::Integer(32768)),
        ImageType::UnsignedLong => Some(crate::value::ValueModel::Integer(2147483648)),
        ImageType::UnsignedLongLong => Some(crate::value::ValueModel::Float("9223372036854775808.0"@)),
        _ => None,
    }
}

impl ImageType {
    /// The `BZERO` written for an image of this type, if it needs one.
    pub fn unsigned_bzero(self) -> (r: Option<crate::value::Value>)
        ensures
            r matches Some(v) ==> spec_unsigned_bzero(self) == Some(v@),
            r is None ==> spec_unsigned_bzero(self) is None,
    {
        match self {
            ImageType::Byte => Some(crate::value::Value::Integer(-128)),
            ImageType::UnsignedShort => Some(crate::value::Value::Integer(32768)),
            ImageType::UnsignedLong => Some(crate::value::Value::Integer(2147483648)),
            ImageType::UnsignedLongLong => Some(crate::value::Value::Float(String::from_str("9223372036854775808.0"))),
            _ => None,
        }
    }

    /// Convert to the FITS BITPIX value.
    ///
    /// Unsigned types map to their signed storage BITPIX; the unsigned
    /// interpretation is carried by the `BZERO` keyword (cfitsio convention).
    pub fn to_bitpix(self) -> (r: i64)
        ensures
            r == spec_to_bitpix(self),
    {
        match self {
            ImageType::UnsignedByte | ImageType::Byte => 8,
            ImageType::Short | ImageType::UnsignedShort => 16,
            ImageType::Long | ImageType::UnsignedLong => 32,
            ImageType::LongLong | ImageType::UnsignedLongLong => 64,
            ImageType::Float => -32,
            ImageType::Double => -64,
        }
    }

    /// Convert from FITS BITPIX value.
    pub fn from_bitpix(bitpix: i64) -> (r: Result<Self>)
        ensures
            r matches Ok(t) ==> spec_from_bitpix(bitpix) == Some(t),
            r is Err ==> spec_from_bitpix(bitpix) is None,
            r matches Err(e) ==> e matches Error::Message(m)
                && m@ == "unsupported BITPIX: "@ + ascii_chars(int_decimal(bitpix as int)),
    {
        if bitpix == 8 {
            Ok(ImageType::UnsignedByte)
        } else if bitpix == 16 {
            Ok(ImageType::Short)
        } else if bitpix == 32 {
            Ok(ImageType::Long)
        } else if bitpix == 64 {
            Ok(ImageType::LongLong)
        } else if bitpix == -32 {
            Ok(ImageType::Float)
        } else if bitpix == -64 {
            Ok(ImageType::Double)
        } else {
            let mut m = String::from_str("unsupported BITPIX: ");
            let digits = i64_decimal(bitpix);
            let d = string_from_bytes(digits.as_slice());
            m.append(d.as_str());
            Err(Error::Message(m))
        }
    }
}

/// Every BITPIX that names a type names one stored with that BITPIX.
pub proof fn lemma_bitpix_roundtrip(bitpix: i64)
    ensures
        spec_from_bitpix(bitpix) matches Some(t) ==> spec_to_bitpix(t) == bitpix,
{
}

/// The range of the values a signed integer storage type holds, for the
/// types whose scaled values can change type.
pub open spec fn stored_range(t: ImageType) -> Option<(int, int)> {
    match t {
        ImageType::UnsignedByte => Some((0, 255)),
        ImageType::Short => Some((-32768, 32767)),
        ImageType::Long => Some((-2147483648, 2147483647)),
        _ => None,
    }
}

/// The type of the physical values `bzero + bscale * v` of stored values of
/// type `stored`, for integer BSCALE and BZERO (cfitsio's equivalent type):
/// the narrowest type holding the physical range; `Float` (8- and 16-bit
/// storage) or `Double` when BZERO is above 2^31 and so not taken as an
/// integer offset.
pub open spec fn spec_int_equivalent(stored: ImageType, bscale: int, bzero: int) -> ImageType {
    if bscale == 1 && bzero == 0 {
        stored
    } else {
        match stored_range(stored) {
            None => stored,
            Some((lo, hi)) => {
                let min = if bscale >= 0 { bzero + bscale * lo } else { bzero + bscale * hi };
                let max = if bscale >= 0 { bzero + bscale * hi } else { bzero + bscale * lo };
                if bzero > 2147483648 {
                    if stored is UnsignedByte || stored is Short { ImageType::Float } else { ImageType::Double }
                } else if min == -128 && max == 127 {
                    ImageType::Byte
                } else if min >= -32768 && max <= 32767 {
                    ImageType::Short
                } else if min >= 0 && max <= 65535 {
                    ImageType::UnsignedShort
                } else if min >= -2147483648 && max <= 2147483647 {
                    ImageType::Long
                } else if min >= 0 && max < 4294967296 {
                    ImageType::UnsignedLong
                } else {
                    ImageType::Double
                }
            },
        }
    }
}

/// The equivalent type of stored values of type `stored` under integer
/// BSCALE and BZERO.
pub fn int_equivalent(stored: ImageType, bscale: i128, bzero: i128) -> (r: ImageType)
    requires
        -0x1_0000_0000_0000_0000 <= bscale <= 0x1_0000_0000_0000_0000,
        -0x1_0000_0000_0000_0000 <= bzero <= 0x1_0000_0000_0000_0000,
    ensures
        r == spec_int_equivalent(stored, bscale as int, bzero as int),
{
    if bscale == 1 && bzero == 0 {
        return stored;
    }
    let (lo, hi): (i128, i128) = match stored {
        ImageType::UnsignedByte => (0, 255),
        ImageType::Short => (-32768, 32767),
        ImageType::Long => (-2147483648, 2147483647),
        _ => return stored,
    };
    let s = bscale;
    let z = bzero;
    assert(-0x1_0000_0000_0000_0000_0000_0000 <= s * lo <= 0x1_0000_0000_0000_0000_0000_0000) by (nonlinear_arith)
        requires -0x1_0000_0000_0000_0000 <= s <= 0x1_0000_0000_0000_0000, -2147483648 <= lo <= 2147483647;
    assert(-0x1_0000_0000_0000_0000_0000_0000 <= s * hi <= 0x1_0000_0000_0000_0000_0000_0000) by (nonlinear_arith)
        requires -0x1_0000_0000_0000_0000 <= s <= 0x1_0000_0000_0000_0000, -2147483648 <= hi <= 2147483647;
    let (min, max) = if s >= 0 { (z + s * lo, z + s * hi) } else { (z + s * hi, z + s * lo) };
    if z > 2147483648 {
        match stored {
            ImageType::UnsignedByte | ImageType::Short => ImageType::Float,
            _ => ImageType::Double,
        }
    } else if min == -128 && max == 127 {
        ImageType::Byte
    } else if min >= -32768 && max <= 32767 {
        ImageType::Short
    } else if min >= 0 && max <= 65535 {
        ImageType::UnsignedShort
    } else if min >= -2147483648 && max <= 2147483647 {
        ImageType::Long
    } else if min >= 0 && max < 4294967296 {
        ImageType::UnsignedLong
    } else {
        ImageType::Double
    }
}

// ── Writing pixels ──

/// The file's bytes with the data segment of HDU `h` (its padded blocks)
/// replaced by `serialized`; the bytes after that segment follow.
pub open spec fn with_data(old: Seq<u8>, h: crate::hdu::HduModel, serialized: Seq<u8>) -> Seq<u8> {
    let next = h.data_start + spec_padded_len(h.data_len);
    old.subrange(0, h.data_start) + serialized + if next < old.len() {
        old.subrange(next, old.len() as int)
    } else {
        Seq::empty()
    }
}

/// What writing `serialized` pixels into HDU `index` does to a file's bytes
/// and what it returns.
pub open spec fn image_written(old: Seq<u8>, new: Seq<u8>, index: int, serialized: Seq<u8>, r: Result<()>) -> bool {
    match spec_parse_fits(old) {
        Err(e) => r matches Err(Error::Fits(f)) && f == e && new == old,
        Ok(hs) => if index >= hs.len() {
            r matches Err(Error::Message(m)) && m@ == out_of_range_message(index) && new == old
        } else {
            r is Ok && new == with_data(old, hs[index], serialized)
        },
    }
}

/// Put serialized pixels in place of the HDU's data segment.
fn write_serialized(file: &mut FitsFile, hdu: &FitsHdu, serialized: &[u8]) -> (r: Result<()>)
    requires
        old(file)@.data.len() + 2880 <= usize::MAX,
    ensures
        final(file)@.filename == old(file)@.filename,
        final(file)@.mode == old(file)@.mode,
        image_written(old(file)@.data, final(file)@.data, hdu.hdu_index as int, serialized@, r),
{
    let parsed = match parse_fits(file.data()) {
        Ok(f) => f,
        Err(e) => return Err(Error::Fits(e)),
    };
    proof { crate::hdu::lemma_hdu_cards_bounded(file@.data, 0, true); }
    if hdu.hdu_index >= parsed.hdus.len() {
        let digits = u64_decimal(hdu.hdu_index as u64);
        let d = string_from_bytes(digits.as_slice());
        let mut m = String::from_str("HDU index ");
        m.append(d.as_str());
        m.append(" out of range");
        return Err(Error::Message(m));
    }
    let core_hdu = &parsed.hdus[hdu.hdu_index];
    assert(hdus_view(parsed.hdus@)[hdu.hdu_index as int] == core_hdu@);
    let data_start = core_hdu.data_start;
    proof { lemma_padded_len_bounds(core_hdu.data_len as int); }
    let padded = padded_byte_len(core_hdu.data_len);
    let data = file.data();
    let file_len = data.len();
    let next = data_start + padded;
    let mut new_data: Vec<u8> = Vec::new();
    new_data.extend_from_slice(vstd::slice::slice_subrange(data, 0, data_start));
    new_data.extend_from_slice(serialized);
    if next < file_len {
        new_data.extend_from_slice(vstd::slice::slice_subrange(data, next, file_len));
    }
    assert(new_data@ =~= with_data(file@.data, hdus_view(parsed.hdus@)[hdu.hdu_index as int], serialized@));
    file.set_data(new_data);
    Ok(())
}

/// Types whose pixels can be written into an image HDU.
pub trait WriteImage: Sized {
    /// The data segment that pixels `data` are stored as.
    spec fn storage(data: Seq<Self>) -> Seq<u8>;

    /// Replace the HDU's data segment by the stored pixels.
    fn write_image(file: &mut FitsFile, hdu: &FitsHdu, data: &[Self]) -> (r: Result<()>)
        requires
            old(file)@.data.len() + 2880 <= usize::MAX,
            spec_padded_len((8 * data@.len()) as int) <= usize::MAX,
        ensures
            final(file)@.filename == old(file)@.filename,
            final(file)@.mode == old(file)@.mode,
            image_written(old(file)@.data, final(file)@.data, hdu.hdu_index as int, Self::storage(data@), r);
}

/// The padded length only grows with the length.
proof fn lemma_padded_len_mono(a: nat, b: nat)
    requires
        a <= b,
    ensures
        spec_padded_len(a as int) <= spec_padded_len(b as int),
{
    assert((a + 2879) / 2880 <= (b + 2879) / 2880) by (nonlinear_arith) requires 0 <= a <= b;
}

impl WriteImage for u8 {
    open spec fn storage(data: Seq<u8>) -> Seq<u8> {
        spec_pad_blocks(data, 0u8)
    }

    fn write_image(file: &mut FitsFile, hdu: &FitsHdu, data: &[Self]) -> (r: Result<()>) {
        proof { lemma_padded_len_mono(data@.len(), 8 * data@.len()); }
        write_serialized(file, hdu, serialize_image_u8(data).as_slice())
    }
}

impl WriteImage for i16 {
    open spec fn storage(data: Seq<i16>) -> Seq<u8> {
        spec_pad_blocks(be_pixels(i16_values(data), 2), 0u8)
    }

    fn write_image(file: &mut FitsFile, hdu: &FitsHdu, data: &[Self]) -> (r: Result<()>) {
        proof { lemma_padded_len_mono(2 * data@.len(), 8 * data@.len()); }
        write_serialized(file, hdu, serialize_image_i16(data).as_slice())
    }
}

impl WriteImage for i32 {
    open spec fn storage(data: Seq<i32>) -> Seq<u8> {
        spec_pad_blocks(be_pixels(i32_values(data), 4), 0u8)
    }

    fn write_image(file: &mut FitsFile, hdu: &FitsHdu, data: &[Self]) -> (r: Result<()>) {
        proof { lemma_padded_len_mono(4 * data@.len(), 8 * data@.len()); }
        write_serialized(file, hdu, serialize_image_i32(data).as_slice())
    }
}

impl WriteImage for i64 {
    open spec fn storage(data: Seq<i64>) -> Seq<u8> {
        spec_pad_blocks(be_pixels(i64_values(data), 8), 0u8)
    }

    fn write_image(file: &mut FitsFile, hdu: &FitsHdu, data: &[Self]) -> (r: Result<()>) {
        write_serialized(file, hdu, serialize_image_i64(data).as_slice())
    }
}

/// Unsigned 16-bit values in their signed storage: each minus 32768 (the
/// sign bit flipped), as `BZERO = 32768` reads them back.
pub open spec fn u16_storage(data: Seq<u16>) -> Seq<i16> {
    data.map_values(|u: u16| (u as int - 32768) as i16)
}

/// Unsigned 32-bit values in their signed storage: each minus 2^31.
pub open spec fn u32_storage(data: Seq<u32>) -> Seq<i32> {
    data.map_values(|u: u32| (u as int - 2147483648) as i32)
}

/// Unsigned 64-bit values in their signed storage: each minus 2^63.
pub open spec fn u64_storage(data: Seq<u64>) -> Seq<i64> {
    data.map_values(|u: u64| (u as int - 9223372036854775808) as i64)
}

/// Signed bytes in their unsigned storage: each plus 128, as
/// `BZERO = -128` reads them back.
pub open spec fn i8_storage(data: Seq<i8>) -> Seq<u8> {
    data.map_values(|v: i8| (v as int + 128) as u8)
}

/// The sign-bit flip of each value.
fn flip_u16(data: &[u16]) -> (r: Vec<i16>)
    ensures
        r@ == u16_storage(data@),
{
    let mut out: Vec<i16> = Vec::new();
    let mut i: usize = 0;
    while i < data.len()
        invariant
            i <= data@.len(),
            out@ == u16_storage(data@.subrange(0, i as int)),
        decreases data@.len() - i,
    {
        let u = data[i];
        let x = (u ^ 0x8000u16) as i16;
        assert(x == (u as int - 32768) as i16) by (bit_vector)
            requires x == (u ^ 0x8000u16) as i16;
        out.push(x);
        i += 1;
        assert(out@ =~= u16_storage(data@.subrange(0, i as int)));
    }
    assert(data@.subrange(0, data@.len() as int) =~= data@);
    out
}

/// The sign-bit flip of each value.
fn flip_u32(data: &[u32]) -> (r: Vec<i32>)
    ensures
        r@ == u32_storage(data@),
{
    let mut out: Vec<i32> = Vec::new();
    let mut i: usize = 0;
    while i < data.len()
        invariant
            i <= data@.len(),
            out@ == u32_storage(data@.subrange(0, i as int)),
        decreases data@.len() - i,
    {
        let u = data[i];
        let x = (u ^ 0x8000_0000u32) as i32;
        assert(x == (u as int - 2147483648) as i32) by (bit_vector)
            requires x == (u ^ 0x8000_0000u32) as i32;
        out.push(x);
        i += 1;
        assert(out@ =~= u32_storage(data@.subrange(0, i as int)));
    }
    assert(data@.subrange(0, data@.len() as int) =~= data@);
    out
}

/// The sign-bit flip of each value.
fn flip_u64(data: &[u64]) -> (r: Vec<i64>)
    ensures
        r@ == u64_storage(data@),
{
    let mut out: Vec<i64> = Vec::new();
    let mut i: usize = 0;
    while i < data.len()
        invariant
            i <= data@.len(),
            out@ == u64_storage(data@.subrange(0, i as int)),
        decreases data@.len() - i,
    {
        let u = data[i];
        let x = (u ^ 0x8000_0000_0000_0000u64) as i64;
        assert(x == (u as int - 9223372036854775808) as i64) by (bit_vector)
            requires x == (u ^ 0x8000_0000_0000_0000u64) as i64;
        out.push(x);
        i += 1;
        assert(out@ =~= u64_storage(data@.subrange(0, i as int)));
    }
    assert(data@.subrange(0, data@.len() as int) =~= data@);
    out
}

/// The sign-bit flip of each value.
fn flip_i8(data: &[i8]) -> (r: Vec<u8>)
    ensures
        r@ == i8_storage(data@),
{
    let mut out: Vec<u8> = Vec::new();
    let mut i: usize = 0;
    while i < data.len()
        invariant
            i <= data@.len(),
            out@ == i8_storage(data@.subrange(0, i as int)),
        decreases data@.len() - i,
    {
        let v = data[i];
        let x = (v as u8) ^ 0x80u8;
        assert(x == (v as int + 128) as u8) by (bit_vector)
            requires x == (v as u8) ^ 0x80u8;
        out.push(x);
        i += 1;
        assert(out@ =~= i8_storage(data@.subrange(0, i as int)));
    }
    assert(data@.subrange(0, data@.len() as int) =~= data@);
    out
}

impl WriteImage for u16 {
    open spec fn storage(data: Seq<u16>) -> Seq<u8> {
        spec_pad_blocks(be_pixels(i16_values(u16_storage(data)), 2), 0u8)
    }

    fn write_image(file: &mut FitsFile, hdu: &FitsHdu, data: &[Self]) -> (r: Result<()>) {
        let storage = flip_u16(data);
        proof { lemma_padded_len_mono(2 * data@.len(), 8 * data@.len()); }
        write_serialized(file, hdu, serialize_image_i16(storage.as_slice()).as_slice())
    }
}

impl WriteImage for u32 {
    open spec fn storage(data: Seq<u32>) -> Seq<u8> {
        spec_pad_blocks(be_pixels(i32_values(u32_storage(data)), 4), 0u8)
    }

    fn write_image(file: &mut FitsFile, hdu: &FitsHdu, data: &[Self]) -> (r: Result<()>) {
        let storage = flip_u32(data);
        proof { lemma_padded_len_mono(4 * data@.len(), 8 * data@.len()); }
        write_serialized(file, hdu, serialize_image_i32(storage.as_slice()).as_slice())
    }
}

impl WriteImage for u64 {
    open spec fn storage(data: Seq<u64>) -> Seq<u8> {
        spec_pad_blocks(be_pixels(i64_values(u64_storage(data)), 8), 0u8)
    }

    fn write_image(file: &mut FitsFile, hdu: &FitsHdu, data: &[Self]) -> (r: Result<()>) {
        let storage = flip_u64(data);
        write_serialized(file, hdu, serialize_image_i64(storage.as_slice()).as_slice())
    }
}

impl WriteImage for i8 {
    open spec fn storage(data: Seq<i8>) -> Seq<u8> {
        spec_pad_blocks(i8_storage(data), 0u8)
    }

    fn write_image(file: &mut FitsFile, hdu: &FitsHdu, data: &[Self]) -> (r: Result<()>) {
        let storage = flip_i8(data);
        proof { lemma_padded_len_mono(data@.len(), 8 * data@.len()); }
        write_serialized(file, hdu, serialize_image_u8(storage.as_slice()).as_slice())
    }
}

// ── Reading pixels ──

/// The stored values of an integer image, as integers; `None` for a
/// floating-point image.
pub open spec fn stored_ints(d: ImageValues) -> Option<Seq<int>> {
    match d {
        ImageValues::U8(v) => Some(Seq::new(v.len(), |i: int| v[i] as int)),
        ImageValues::I16(v) => Some(Seq::new(v.len(), |i: int| v[i] as int)),
        ImageValues::I32(v) => Some(Seq::new(v.len(), |i: int| v[i] as int)),
        ImageValues::I64(v) => Some(Seq::new(v.len(), |i: int| v[i] as int)),
        _ => None,
    }
}

/// What reading the pixels of an HDU gives, before their conversion to an
/// element type.
pub enum PixelRead {
    /// The file's bytes do not parse.
    Unreadable(crate::error::Error),
    /// The file has no HDU of that index.
    NoHdu,
    /// Reading the stored values failed.
    Failed(crate::error::Error),
    /// The physical values need floating point: the stored values are
    /// floating-point, or `BSCALE` or `BZERO` is not an integer.
    NeedsFloat,
    /// The physical values: each stored value times `BSCALE` plus `BZERO`.
    Physical(Seq<int>),
}

/// Reading the pixels of HDU `index` of a file with bytes `data`.
pub open spec fn pixel_read(data: Seq<u8>, index: int) -> PixelRead {
    match spec_parse_fits(data) {
        Err(e) => PixelRead::Unreadable(e),
        Ok(hs) => if index >= hs.len() {
            PixelRead::NoHdu
        } else {
            match spec_read_image_data(data, hs[index]) {
                Err(e) => PixelRead::Failed(e),
                Ok(d) => match (stored_ints(d), scale_of(hs[index].cards, bscale_keyword(), 1), scale_of(hs[index].cards, bzero_keyword(), 0)) {
                    (Some(vs), Some(a), Some(z)) => if i64::MIN <= a <= i64::MAX {
                        PixelRead::Physical(Seq::new(vs.len(), |i: int| vs[i] * a + z))
                    } else {
                        PixelRead::NeedsFloat
                    },
                    _ => PixelRead::NeedsFloat,
                },
            }
        },
    }
}

/// The pixels of HDU `index` can be read: a tile-compressed image's tiles
/// can be decoded without running past the data.
pub open spec fn pixels_in_reach(data: Seq<u8>, index: int) -> bool {
    match spec_parse_fits(data) {
        Ok(hs) => 0 <= index < hs.len() ==> (hs[index].info is CompressedImage ==> tiled_readable(data.len() as int, hs[index])),
        Err(_) => true,
    }
}

/// Whether the pixels of HDU `index` of the file can be read.
pub fn pixels_in_reach_exec(file: &FitsFile, index: usize) -> (b: bool)
    requires
        file@.data.len() + 2880 <= usize::MAX,
    ensures
        b == pixels_in_reach(file@.data, index as int),
{
    let fits_data = match parse_fits(file.data()) {
        Ok(f) => f,
        Err(_) => return true,
    };
    if index >= fits_data.hdus.len() {
        return true;
    }
    let h = &fits_data.hdus[index];
    match &h.info {
        HduInfo::CompressedImage { .. } => check_tiled_readable(file.data(), h),
        _ => true,
    }
}

/// The message for physical values that need floating point.
pub open spec fn needs_float_message() -> Seq<char> {
    "scaled pixel values need floating point"@
}

/// The error that a pixel read gives before the element type matters.
pub open spec fn pixel_failed(p: PixelRead, index: int, e: Error) -> bool {
    match p {
        PixelRead::Unreadable(f) => e matches Error::Fits(g) && g == f,
        PixelRead::NoHdu => e matches Error::Message(m) && m@ == out_of_range_message(index),
        PixelRead::Failed(f) => e matches Error::Fits(g) && g == f,
        PixelRead::NeedsFloat => e matches Error::Message(m) && m@ == needs_float_message(),
        PixelRead::Physical(_) => false,
    }
}

/// A stored value scaled by `a` and offset by `z`, exactly.
pub(crate) fn scale_one(x: i64, a: i64, z: i128) -> (r: i128)
    requires
        -0x1_0000_0000_0000_0000 <= z <= 0x1_0000_0000_0000_0000,
    ensures
        r == x * a + z,
{
    proof {
        assert(-0x4000_0000_0000_0000_0000_0000_0000_0000int <= x * a <= 0x4000_0000_0000_0000_0000_0000_0000_0000int) by (nonlinear_arith)
            requires
                i64::MIN <= x <= i64::MAX,
                i64::MIN <= a <= i64::MAX;
    }
    (x as i128) * (a as i128) + z
}

/// The stored values of an integer image times `a` plus `z`; `None` for a
/// floating-point image.
fn scaled_values(d: &ImageData, a: i64, z: i128) -> (r: Option<Vec<i128>>)
    requires
        -0x1_0000_0000_0000_0000 <= z <= 0x1_0000_0000_0000_0000,
    ensures
        r matches Some(v) ==> stored_ints(d@) matches Some(vs) && v@.len() == vs.len()
            && forall|i: int| 0 <= i < vs.len() ==> #[trigger] v@[i] == vs[i] * a + z,
        r is None ==> stored_ints(d@) is None,
{
    let mut out: Vec<i128> = Vec::new();
    match d {
        ImageData::U8(v) => {
            let mut i: usize = 0;
            while i < v.len()
                invariant
                    i <= v@.len(),
                    out@.len() == i,
                    -0x1_0000_0000_0000_0000 <= z <= 0x1_0000_0000_0000_0000,
                    forall|j: int| 0 <= j < i ==> #[trigger] out@[j] == v@[j] * a + z,
                decreases v@.len() - i,
            {
                out.push(scale_one(v[i] as i64, a, z));
                i += 1;
            }
        },
        ImageData::I16(v) => {
            let mut i: usize = 0;
            while i < v.len()
                invariant
                    i <= v@.len(),
                    out@.len() == i,
                    -0x1_0000_0000_0000_0000 <= z <= 0x1_0000_0000_0000_0000,
                    forall|j: int| 0 <= j < i ==> #[trigger] out@[j] == v@[j] * a + z,
                decreases v@.len() - i,
            {
                out.push(scale_one(v[i] as i64, a, z));
                i += 1;
            }
        },
        ImageData::I32(v) => {
            let mut i: usize = 0;
            while i < v.len()
                invariant
                    i <= v@.len(),
                    out@.len() == i,
                    -0x1_0000_0000_0000_0000 <= z <= 0x1_0000_0000_0000_0000,
                    forall|j: int| 0 <= j < i ==> #[trigger] out@[j] == v@[j] * a + z,
                decreases v@.len() - i,
            {
                out.push(scale_one(v[i] as i64, a, z));
                i += 1;
            }
        },
        ImageData::I64(v) => {
            let mut i: usize = 0;
            while i < v.len()
                invariant
                    i <= v@.len(),
                    out@.len() == i,
                    -0x1_0000_0000_0000_0000 <= z <= 0x1_0000_0000_0000_0000,
                    forall|j: int| 0 <= j < i ==> #[trigger] out@[j] == v@[j] * a + z,
                decreases v@.len() - i,
            {
                out.push(scale_one(v[i] as i64, a, z));
                i += 1;
            }
        },
        _ => return None,
    }
    Some(out)
}

/// The physical pixel values of the HDU: its stored integers times
/// `BSCALE` plus `BZERO`, where both are integers.
fn read_physical(file: &FitsFile, hdu: &FitsHdu) -> (r: Result<Vec<i128>>)
    requires
        file@.data.len() + 2880 <= usize::MAX,
        pixels_in_reach(file@.data, hdu.hdu_index as int),
    ensures
        match pixel_read(file@.data, hdu.hdu_index as int) {
            PixelRead::Physical(vs) => r matches Ok(v) && v@.len() == vs.len()
                && forall|i: int| 0 <= i < vs.len() ==> #[trigger] v@[i] == vs[i],
            k => r matches Err(e) && pixel_failed(k, hdu.hdu_index as int, e),
        },
{
    let fits_data = match parse_fits(file.data()) {
        Ok(f) => f,
        Err(e) => return Err(Error::Fits(e)),
    };
    if hdu.hdu_index >= fits_data.hdus.len() {
        let digits = u64_decimal(hdu.hdu_index as u64);
        let d = string_from_bytes(digits.as_slice());
        let mut m = String::from_str("HDU index ");
        m.append(d.as_str());
        m.append(" out of range");
        proof {
            reveal_strlit("HDU index ");
            reveal_strlit(" out of range");
        }
        return Err(Error::Message(m));
    }
    let core_hdu = &fits_data.hdus[hdu.hdu_index];
    let ks = kw(&[66u8, 83u8, 67u8, 65u8, 76u8, 69u8]);
    let kz = kw(&[66u8, 90u8, 69u8, 82u8, 79u8]);
    assert(seq![66u8, 83u8, 67u8, 65u8, 76u8, 69u8] =~= [66u8, 83u8, 67u8, 65u8, 76u8, 69u8]@);
    assert(seq![66u8, 90u8, 69u8, 82u8, 79u8] =~= [66u8, 90u8, 69u8, 82u8, 79u8]@);
    let bscale = integer_scale(core_hdu.cards.as_slice(), &ks, 1);
    let bzero = integer_scale(core_hdu.cards.as_slice(), &kz, 0);
    let stored = match read_image_data(file.data(), core_hdu) {
        Ok(d) => d,
        Err(e) => return Err(Error::Fits(e)),
    };
    let physical = match (bscale, bzero) {
        (Some(a), Some(z)) => if i64::MIN as i128 <= a && a <= i64::MAX as i128 {
            scaled_values(&stored, a as i64, z)
        } else {
            None
        },
        _ => None,
    };
    match physical {
        Some(v) => {
            let ghost vs = stored_ints(stored@)->Some_0;
            assert(pixel_read(file@.data, hdu.hdu_index as int)
                == PixelRead::Physical(Seq::new(vs.len(), |i: int| vs[i] * bscale->Some_0 + bzero->Some_0)));
            Ok(v)
        },
        None => {
            proof {
                reveal_strlit("scaled pixel values need floating point");
            }
            Err(Error::Message(String::from_str("scaled pixel values need floating point")))
        },
    }
}

/// The message for a physical value that the element type cannot hold.
pub open spec fn pixel_range_message(label: Seq<char>) -> Seq<char> {
    "pixel value out of range for "@ + label
}

/// Integer types that physical pixel values can be narrowed to.
pub trait PixelValue: Sized {
    /// The type's name, as error messages give it.
    spec fn type_label() -> Seq<char>;

    /// Whether the type holds the integer `v`.
    spec fn holds(v: int) -> bool;

    /// The integer that a value of the type is.
    spec fn value_of(x: Self) -> int;

    /// The value that is `v`, when the type holds it.
    fn from_exact(v: i128) -> (r: Option<Self>)
        ensures
            r matches Some(x) ==> Self::holds(v as int) && Self::value_of(x) == v,
            r is None ==> !Self::holds(v as int);

    /// The type's name.
    fn type_text() -> (r: &'static str)
        ensures
            r@ == Self::type_label();

    /// The integer that `x` is.
    fn to_exact(x: Self) -> (r: i128)
        ensures
            r == Self::value_of(x),
            -0x8000_0000_0000_0000 <= r <= 0xFFFF_FFFF_FFFF_FFFF;
}

/// Integer types that image pixels can be read as.
pub trait ReadImage: PixelValue {
    /// Read all pixels of the HDU as physical values: each stored value
    /// times `BSCALE` plus `BZERO`; a value that the type cannot hold is an
    /// error.
    fn read_image(file: &FitsFile, hdu: &FitsHdu) -> (r: Result<Vec<Self>>)
        requires
            file@.data.len() + 2880 <= usize::MAX,
            pixels_in_reach(file@.data, hdu.hdu_index as int),
        ensures
            match pixel_read(file@.data, hdu.hdu_index as int) {
                PixelRead::Physical(vs) => if forall|i: int| 0 <= i < vs.len() ==> Self::holds(#[trigger] vs[i]) {
                    r matches Ok(v) && v@.len() == vs.len() && forall|i: int| 0 <= i < vs.len() ==> Self::value_of(#[trigger] v@[i]) == vs[i]
                } else {
                    r matches Err(Error::Message(m)) && m@ == pixel_range_message(Self::type_label())
                },
                k => r matches Err(e) && pixel_failed(k, hdu.hdu_index as int, e),
            };
}

/// Read all pixels of the HDU as values of `T`.
fn read_as<T: PixelValue>(file: &FitsFile, hdu: &FitsHdu) -> (r: Result<Vec<T>>)
    requires
        file@.data.len() + 2880 <= usize::MAX,
        pixels_in_reach(file@.data, hdu.hdu_index as int),
    ensures
        match pixel_read(file@.data, hdu.hdu_index as int) {
            PixelRead::Physical(vs) => if forall|i: int| 0 <= i < vs.len() ==> T::holds(#[trigger] vs[i]) {
                r matches Ok(v) && v@.len() == vs.len() && forall|i: int| 0 <= i < vs.len() ==> T::value_of(#[trigger] v@[i]) == vs[i]
            } else {
                r matches Err(Error::Message(m)) && m@ == pixel_range_message(T::type_label())
            },
            k => r matches Err(e) && pixel_failed(k, hdu.hdu_index as int, e),
        },
{
    match read_physical(file, hdu) {
        Ok(vs) => {
            let ghost sv = pixel_read(file@.data, hdu.hdu_index as int)->Physical_0;
            let r = narrow::<T>(vs);
            proof {
                if forall|i: int| 0 <= i < sv.len() ==> T::holds(#[trigger] sv[i]) {
                    assert forall|i: int| 0 <= i < vs@.len() implies T::holds(#[trigger] vs@[i] as int) by {
                        assert(sv[i] == vs@[i]);
                    }
                } else {
                    let i = choose|i: int| 0 <= i < sv.len() && !T::holds(#[trigger] sv[i]);
                    assert(sv[i] == vs@[i]);
                    assert(!T::holds(vs@[i] as int));
                }
            }
            r
        },
        Err(e) => Err(e),
    }
}

/// Physical values as values of `T`, or the error for the first one that
/// `T` cannot hold.
fn narrow<T: PixelValue>(vs: Vec<i128>) -> (r: Result<Vec<T>>)
    ensures
        if forall|i: int| 0 <= i < vs@.len() ==> T::holds(#[trigger] vs@[i] as int) {
            r matches Ok(v) && v@.len() == vs@.len() && forall|i: int| 0 <= i < vs@.len() ==> T::value_of(#[trigger] v@[i]) == vs@[i]
        } else {
            r matches Err(Error::Message(m)) && m@ == pixel_range_message(T::type_label())
        },
{
    let mut out: Vec<T> = Vec::new();
    let mut i: usize = 0;
    while i < vs.len()
        invariant
            i <= vs@.len(),
            out@.len() == i,
            forall|j: int| 0 <= j < i ==> T::holds(#[trigger] vs@[j] as int),
            forall|j: int| 0 <= j < i ==> T::value_of(#[trigger] out@[j]) == vs@[j],
        decreases vs@.len() - i,
    {
        match T::from_exact(vs[i]) {
            Some(x) => out.push(x),
            None => {
                let mut m = String::from_str("pixel value out of range for ");
                m.append(T::type_text());
                proof {
                    reveal_strlit("pixel value out of range for ");
                }
                return Err(Error::Message(m));
            },
        }
        i += 1;
    }
    Ok(out)
}

impl PixelValue for u8 {
    open spec fn type_label() -> Seq<char> {
        "u8"@
    }

    open spec fn holds(v: int) -> bool {
        0 <= v <= 255
    }

    open spec fn value_of(x: Self) -> int {
        x as int
    }

    fn from_exact(v: i128) -> (r: Option<Self>) {
        if 0i128 <= v && v <= 255i128 {
            Some(v as u8)
        } else {
            None
        }
    }

    fn type_text() -> (r: &'static str) {
        proof {
            reveal_strlit("u8");
        }
        "u8"
    }

    fn to_exact(x: Self) -> (r: i128) {
        x as i128
    }
}

impl ReadImage for u8 {
    /// Read the image as an unsigned byte per pixel.
    fn read_image(file: &FitsFile, hdu: &FitsHdu) -> (r: Result<Vec<Self>>) {
        read_as::<u8>(file, hdu)
    }
}

impl PixelValue for i8 {
    open spec fn type_label() -> Seq<char> {
        "i8"@
    }

    open spec fn holds(v: int) -> bool {
        -128 <= v <= 127
    }

    open spec fn value_of(x: Self) -> int {
        x as int
    }

    fn from_exact(v: i128) -> (r: Option<Self>) {
        if -128i128 <= v && v <= 127i128 {
            Some(v as i8)
        } else {
            None
        }
    }

    fn type_text() -> (r: &'static str) {
        proof {
            reveal_strlit("i8");
        }
        "i8"
    }

    fn to_exact(x: Self) -> (r: i128) {
        x as i128
    }
}

impl ReadImage for i8 {
    /// Read the image as a signed byte per pixel.
    fn read_image(file: &FitsFile, hdu: &FitsHdu) -> (r: Result<Vec<Self>>) {
        read_as::<i8>(file, hdu)
    }
}

impl PixelValue for i16 {
    open spec fn type_label() -> Seq<char> {
        "i16"@
    }

    open spec fn holds(v: int) -> bool {
        -32768 <= v <= 32767
    }

    open spec fn value_of(x: Self) -> int {
        x as int
    }

    fn from_exact(v: i128) -> (r: Option<Self>) {
        if -32768i128 <= v && v <= 32767i128 {
            Some(v as i16)
        } else {
            None
        }
    }

    fn type_text() -> (r: &'static str) {
        proof {
            reveal_strlit("i16");
        }
        "i16"
    }

    fn to_exact(x: Self) -> (r: i128) {
        x as i128
    }
}

impl ReadImage for i16 {
    /// Read the image as a 16-bit integer per pixel.
    fn read_image(file: &FitsFile, hdu: &FitsHdu) -> (r: Result<Vec<Self>>) {
        read_as::<i16>(file, hdu)
    }
}

impl PixelValue for u16 {
    open spec fn type_label() -> Seq<char> {
        "u16"@
    }

    open spec fn holds(v: int) -> bool {
        0 <= v <= 65535
    }

    open spec fn value_of(x: Self) -> int {
        x as int
    }

    fn from_exact(v: i128) -> (r: Option<Self>) {
        if 0i128 <= v && v <= 65535i128 {
            Some(v as u16)
        } else {
            None
        }
    }

    fn type_text() -> (r: &'static str) {
        proof {
            reveal_strlit("u16");
        }
        "u16"
    }

    fn to_exact(x: Self) -> (r: i128) {
        x as i128
    }
}

impl ReadImage for u16 {
    /// Read the image as an unsigned 16-bit integer per pixel.
    fn read_image(file: &FitsFile, hdu: &FitsHdu) -> (r: Result<Vec<Self>>) {
        read_as::<u16>(file, hdu)
    }
}

impl PixelValue for i32 {
    open spec fn type_label() -> Seq<char> {
        "i32"@
    }

    open spec fn holds(v: int) -> bool {
        -2147483648 <= v <= 2147483647
    }

    open spec fn value_of(x: Self) -> int {
        x as int
    }

    fn from_exact(v: i128) -> (r: Option<Self>) {
        if -2147483648i128 <= v && v <= 2147483647i128 {
            Some(v as i32)
        } else {
            None
        }
    }

    fn type_text() -> (r: &'static str) {
        proof {
            reveal_strlit("i32");
        }
        "i32"
    }

    fn to_exact(x: Self) -> (r: i128) {
        x as i128
    }
}

impl ReadImage for i32 {
    /// Read the image as a 32-bit integer per pixel.
    fn read_image(file: &FitsFile, hdu: &FitsHdu) -> (r: Result<Vec<Self>>) {
        read_as::<i32>(file, hdu)
    }
}

impl PixelValue for u32 {
    open spec fn type_label() -> Seq<char> {
        "u32"@
    }

    open spec fn holds(v: int) -> bool {
        0 <= v <= 4294967295
    }

    open spec fn value_of(x: Self) -> int {
        x as int
    }

    fn from_exact(v: i128) -> (r: Option<Self>) {
        if 0i128 <= v && v <= 4294967295i128 {
            Some(v as u32)
        } else {
            None
        }
    }

    fn type_text() -> (r: &'static str) {
        proof {
            reveal_strlit("u32");
        }
        "u32"
    }

    fn to_exact(x: Self) -> (r: i128) {
        x as i128
    }
}

impl ReadImage for u32 {
    /// Read the image as an unsigned 32-bit integer per pixel.
    fn read_image(file: &FitsFile, hdu: &FitsHdu) -> (r: Result<Vec<Self>>) {
        read_as::<u32>(file, hdu)
    }
}

impl PixelValue for i64 {
    open spec fn type_label() -> Seq<char> {
        "i64"@
    }

    open spec fn holds(v: int) -> bool {
        -9223372036854775808 <= v <= 9223372036854775807
    }

    open spec fn value_of(x: Self) -> int {
        x as int
    }

    fn from_exact(v: i128) -> (r: Option<Self>) {
        if -9223372036854775808i128 <= v && v <= 9223372036854775807i128 {
            Some(v as i64)
        } else {
            None
        }
    }

    fn type_text() -> (r: &'static str) {
        proof {
            reveal_strlit("i64");
        }
        "i64"
    }

    fn to_exact(x: Self) -> (r: i128) {
        x as i128
    }
}

impl ReadImage for i64 {
    /// Read the image as a 64-bit integer per pixel.
    fn read_image(file: &FitsFile, hdu: &FitsHdu) -> (r: Result<Vec<Self>>) {
        read_as::<i64>(file, hdu)
    }
}

impl PixelValue for u64 {
    open spec fn type_label() -> Seq<char> {
        "u64"@
    }

    open spec fn holds(v: int) -> bool {
        0 <= v <= 18446744073709551615
    }

    open spec fn value_of(x: Self) -> int {
        x as int
    }

    fn from_exact(v: i128) -> (r: Option<Self>) {
        if 0i128 <= v && v <= 18446744073709551615i128 {
            Some(v as u64)
        } else {
            None
        }
    }

    fn type_text() -> (r: &'static str) {
        proof {
            reveal_strlit("u64");
        }
        "u64"
    }

    fn to_exact(x: Self) -> (r: i128) {
        x as i128
    }
}

impl ReadImage for u64 {
    /// Read the image as an unsigned 64-bit integer per pixel.
    fn read_image(file: &FitsFile, hdu: &FitsHdu) -> (r: Result<Vec<Self>>) {
        read_as::<u64>(file, hdu)
    }
}

} // verus!
