//! Image data layout: pixel sizes, big-endian serialization and the byte
//! ranges of sections and rows.
use vstd::prelude::*;

use crate::block::{lemma_padded_len_bounds, padded_byte_len, spec_pad_blocks, spec_padded_len};
use crate::bintable::{be_grid, ints_of, longs_of, read_be_cells, shorts_of, words_of};
use crate::endian::{be_uint, be_bytes, lemma_pow256_values, pow256, to_signed, to_unsigned, write_i16_be, write_i32_be, write_i64_be, write_u32_be, write_u64_be};
use crate::error::{Error, Result};
use crate::hdu::{Hdu, HduInfo, HduInfoModel};
use crate::primary::{build_primary_header, is_valid_bitpix, prefix_products_fit, product, scaled_product, spec_primary_cards};
use crate::header::{cards_view, kw, kw_pad, serialize_header, spec_serialize_header, Card};
use crate::hdu::{card_int, card_integer_value, HduModel};
use crate::tiled::{read_tiled_image, spec_read_tiled_image, tiled_readable};

verus! {

/// Returns the number of bytes per pixel for a given BITPIX value.
pub fn bytes_per_pixel(bitpix: i64) -> (r: Result<usize>)
    ensures
        r is Ok <==> is_valid_bitpix(bitpix),
        r matches Ok(n) ==> n == (if bitpix < 0 { -bitpix } else { bitpix as int }) / 8,
        r matches Err(e) ==> e == Error::InvalidBitpix(bitpix),
{
    if bitpix == 8 || bitpix == 16 || bitpix == 32 || bitpix == 64 {
        Ok((bitpix / 8) as usize)
    } else if bitpix == -32 || bitpix == -64 {
        Ok((-bitpix / 8) as usize)
    } else {
        Err(Error::InvalidBitpix(bitpix))
    }
}

/// Returns the image dimensions (NAXISn values) from an HDU: the axes of a
/// primary or image HDU, or the image axes of a compressed image.
pub fn image_dimensions(hdu: &Hdu) -> (r: Result<Vec<usize>>)
    ensures
        r is Ok <==> (hdu.info@ is Primary || hdu.info@ is Image || hdu.info@ is CompressedImage),
        r matches Ok(v) ==> v@ == match hdu.info@ {
            HduInfoModel::Primary { naxes, .. } => naxes,
            HduInfoModel::Image { naxes, .. } => naxes,
            HduInfoModel::CompressedImage { znaxes, .. } => znaxes,
            _ => Seq::<usize>::empty(),
        },
        r matches Err(e) ==> e == Error::InvalidHeader,
{
    match &hdu.info {
        HduInfo::Primary { naxes, .. } => Ok(copy_usizes(naxes.as_slice())),
        HduInfo::Image { naxes, .. } => Ok(copy_usizes(naxes.as_slice())),
        HduInfo::CompressedImage { znaxes, .. } => Ok(copy_usizes(znaxes.as_slice())),
        _ => Err(Error::InvalidHeader),
    }
}

/// A copy of the values.
fn copy_usizes(s: &[usize]) -> (r: Vec<usize>)
    ensures
        r@ == s@,
{
    let mut out: Vec<usize> = Vec::new();
    let mut i: usize = 0;
    while i < s.len()
        invariant
            i <= s@.len(),
            out@ == s@.subrange(0, i as int),
        decreases s@.len() - i,
    {
        out.push(s[i]);
        i += 1;
        assert(out@ =~= s@.subrange(0, i as int));
    }
    assert(s@.subrange(0, s@.len() as int) =~= s@);
    out
}

/// The BITPIX and axes of an image HDU.
pub open spec fn image_shape(info: HduInfoModel) -> Option<(i64, Seq<usize>)> {
    match info {
        HduInfoModel::Primary { bitpix, naxes } => Some((bitpix, naxes)),
        HduInfoModel::Image { bitpix, naxes } => Some((bitpix, naxes)),
        HduInfoModel::CompressedImage { zbitpix, znaxes, .. } => Some((zbitpix, znaxes)),
        _ => None,
    }
}

// ── Serialization ──

/// The bytes of the pixels, each as `k` big-endian bytes of its
/// two's-complement value.
pub open spec fn be_pixels(values: Seq<int>, k: nat) -> Seq<u8> {
    Seq::new(values.len() * k, |j: int| be_bytes(to_unsigned(values[j / k as int], 8 * k), k)[j % k as int])
}

/// Serialize a slice of `u8` pixel values into a block-padded FITS data segment.
pub fn serialize_image_u8(pixels: &[u8]) -> (r: Vec<u8>)
    requires
        spec_padded_len(pixels@.len() as int) <= usize::MAX,
    ensures
        r@ == spec_pad_blocks(pixels@, 0u8),
{
    proof { lemma_padded_len_bounds(pixels@.len() as int); }
    let padded = padded_byte_len(pixels.len());
    let mut buf: Vec<u8> = Vec::new();
    let mut i: usize = 0;
    while i < pixels.len()
        invariant
            i <= pixels@.len(),
            buf@ == pixels@.subrange(0, i as int),
        decreases pixels@.len() - i,
    {
        buf.push(pixels[i]);
        i += 1;
        assert(buf@ =~= pixels@.subrange(0, i as int));
    }
    assert(pixels@.subrange(0, pixels@.len() as int) =~= pixels@);
    pad_with_zeros(&mut buf, padded);
    buf
}

/// Append zeros up to `len` bytes.
fn pad_with_zeros(buf: &mut Vec<u8>, len: usize)
    requires
        old(buf)@.len() <= len,
        len == spec_padded_len(old(buf)@.len() as int),
    ensures
        final(buf)@ == spec_pad_blocks(old(buf)@, 0u8),
{
    let ghost start = buf@;
    while buf.len() < len
        invariant
            start.len() <= buf@.len() <= len,
            buf@.subrange(0, start.len() as int) == start,
            forall|j: int| start.len() <= j < buf@.len() ==> buf@[j] == 0u8,
        decreases len - buf@.len(),
    {
        buf.push(0u8);
    }
    assert(buf@ =~= spec_pad_blocks(start, 0u8));
}

/// The pixel values as integers.
pub open spec fn i16_values(p: Seq<i16>) -> Seq<int> {
    Seq::new(p.len(), |i: int| p[i] as int)
}

/// Serialize a slice of `i16` pixel values into big-endian, block-padded
/// FITS data.
pub fn serialize_image_i16(pixels: &[i16]) -> (r: Vec<u8>)
    requires
        spec_padded_len(2 * pixels@.len() as int) <= usize::MAX,
    ensures
        r@ == spec_pad_blocks(be_pixels(i16_values(pixels@), 2), 0u8),
{
    let ghost target = be_pixels(i16_values(pixels@), 2);
    proof { lemma_padded_len_bounds(2 * pixels@.len() as int); }
    let padded = padded_byte_len(pixels.len() * 2);
    let mut buf: Vec<u8> = Vec::new();
    let mut i: usize = 0;
    while i < pixels.len()
        invariant
            i <= pixels@.len(),
            2 * pixels@.len() <= usize::MAX,
            target == be_pixels(i16_values(pixels@), 2),
            buf@.len() == 2 * i,
            forall|j: int| 0 <= j < buf@.len() ==> #[trigger] buf@[j] == target[j],
        decreases pixels@.len() - i,
    {
        let mut one = [0u8; 2];
        write_i16_be(&mut one, pixels[i]);
        let ghost before = buf@;
        let mut k: usize = 0;
        while k < 2
            invariant
                k <= 2,
                i < pixels@.len(),
                2 * pixels@.len() <= usize::MAX,
                target == be_pixels(i16_values(pixels@), 2),
                one@ == be_bytes(to_unsigned(pixels@[i as int] as int, 16), 2),
                buf@.len() == 2 * i + k,
                forall|j: int| 0 <= j < buf@.len() ==> #[trigger] buf@[j] == target[j],
            decreases 2 - k,
        {
            proof {
                let j = 2 * i + k;
                assert(j / 2 == i && j % 2 == k) by (nonlinear_arith)
                    requires j == 2 * i + k, k < 2;
                assert(j < 2 * pixels@.len()) by (nonlinear_arith)
                    requires j == 2 * i + k, k < 2, i < pixels@.len();
            }
            buf.push(one[k]);
            k += 1;
        }
        i += 1;
    }
    assert(buf@ =~= target);
    pad_with_zeros(&mut buf, padded);
    buf
}

/// The pixel values as integers.
pub open spec fn i32_values(p: Seq<i32>) -> Seq<int> {
    Seq::new(p.len(), |i: int| p[i] as int)
}

/// Serialize a slice of `i32` pixel values into big-endian, block-padded
/// FITS data.
pub fn serialize_image_i32(pixels: &[i32]) -> (r: Vec<u8>)
    requires
        spec_padded_len(4 * pixels@.len() as int) <= usize::MAX,
    ensures
        r@ == spec_pad_blocks(be_pixels(i32_values(pixels@), 4), 0u8),
{
    let ghost target = be_pixels(i32_values(pixels@), 4);
    proof { lemma_padded_len_bounds(4 * pixels@.len() as int); }
    let padded = padded_byte_len(pixels.len() * 4);
    let mut buf: Vec<u8> = Vec::new();
    let mut i: usize = 0;
    while i < pixels.len()
        invariant
            i <= pixels@.len(),
            4 * pixels@.len() <= usize::MAX,
            target == be_pixels(i32_values(pixels@), 4),
            buf@.len() == 4 * i,
            forall|j: int| 0 <= j < buf@.len() ==> #[trigger] buf@[j] == target[j],
        decreases pixels@.len() - i,
    {
        let mut one = [0u8; 4];
        write_i32_be(&mut one, pixels[i]);
        let ghost before = buf@;
        let mut k: usize = 0;
        while k < 4
            invariant
                k <= 4,
                i < pixels@.len(),
                4 * pixels@.len() <= usize::MAX,
                target == be_pixels(i32_values(pixels@), 4),
                one@ == be_bytes(to_unsigned(pixels@[i as int] as int, 32), 4),
                buf@.len() == 4 * i + k,
                forall|j: int| 0 <= j < buf@.len() ==> #[trigger] buf@[j] == target[j],
            decreases 4 - k,
        {
            proof {
                let j = 4 * i + k;
                assert(j / 4 == i && j % 4 == k) by (nonlinear_arith)
                    requires j == 4 * i + k, k < 4;
                assert(j < 4 * pixels@.len()) by (nonlinear_arith)
                    requires j == 4 * i + k, k < 4, i < pixels@.len();
            }
            buf.push(one[k]);
            k += 1;
        }
        i += 1;
    }
    assert(buf@ =~= target);
    pad_with_zeros(&mut buf, padded);
    buf
}

/// The pixel values as integers.
pub open spec fn i64_values(p: Seq<i64>) -> Seq<int> {
    Seq::new(p.len(), |i: int| p[i] as int)
}

/// Serialize a slice of `i64` pixel values into big-endian, block-padded
/// FITS data.
pub fn serialize_image_i64(pixels: &[i64]) -> (r: Vec<u8>)
    requires
        spec_padded_len(8 * pixels@.len() as int) <= usize::MAX,
    ensures
        r@ == spec_pad_blocks(be_pixels(i64_values(pixels@), 8), 0u8),
{
    let ghost target = be_pixels(i64_values(pixels@), 8);
    proof { lemma_padded_len_bounds(8 * pixels@.len() as int); }
    let padded = padded_byte_len(pixels.len() * 8);
    let mut buf: Vec<u8> = Vec::new();
    let mut i: usize = 0;
    while i < pixels.len()
        invariant
            i <= pixels@.len(),
            8 * pixels@.len() <= usize::MAX,
            target == be_pixels(i64_values(pixels@), 8),
            buf@.len() == 8 * i,
            forall|j: int| 0 <= j < buf@.len() ==> #[trigger] buf@[j] == target[j],
        decreases pixels@.len() - i,
    {
        let mut one = [0u8; 8];
        write_i64_be(&mut one, pixels[i]);
        let ghost before = buf@;
        let mut k: usize = 0;
        while k < 8
            invariant
                k <= 8,
                i < pixels@.len(),
                8 * pixels@.len() <= usize::MAX,
                target == be_pixels(i64_values(pixels@), 8),
                one@ == be_bytes(to_unsigned(pixels@[i as int] as int, 64), 8),
                buf@.len() == 8 * i + k,
                forall|j: int| 0 <= j < buf@.len() ==> #[trigger] buf@[j] == target[j],
            decreases 8 - k,
        {
            proof {
                let j = 8 * i + k;
                assert(j / 8 == i && j % 8 == k) by (nonlinear_arith)
                    requires j == 8 * i + k, k < 8;
                assert(j < 8 * pixels@.len()) by (nonlinear_arith)
                    requires j == 8 * i + k, k < 8, i < pixels@.len();
            }
            buf.push(one[k]);
            k += 1;
        }
        i += 1;
    }
    assert(buf@ =~= target);
    pad_with_zeros(&mut buf, padded);
    buf
}

/// The bit patterns as integers.
pub open spec fn u32_values(p: Seq<u32>) -> Seq<int> {
    Seq::new(p.len(), |i: int| p[i] as int)
}

/// Serialize `f32` pixels, given by their bit patterns, into big-endian,
/// block-padded FITS data.
pub fn serialize_image_f32(pixels: &[u32]) -> (r: Vec<u8>)
    requires
        spec_padded_len(4 * pixels@.len() as int) <= usize::MAX,
    ensures
        r@ == spec_pad_blocks(be_pixels(u32_values(pixels@), 4), 0u8),
{
    let ghost target = be_pixels(u32_values(pixels@), 4);
    proof { lemma_padded_len_bounds(4 * pixels@.len() as int); }
    let padded = padded_byte_len(pixels.len() * 4);
    let mut buf: Vec<u8> = Vec::new();
    let mut i: usize = 0;
    while i < pixels.len()
        invariant
            i <= pixels@.len(),
            4 * pixels@.len() <= usize::MAX,
            target == be_pixels(u32_values(pixels@), 4),
            buf@.len() == 4 * i,
            forall|j: int| 0 <= j < buf@.len() ==> #[trigger] buf@[j] == target[j],
        decreases pixels@.len() - i,
    {
        let mut one = [0u8; 4];
        write_u32_be(&mut one, pixels[i]);
        let ghost before = buf@;
        let mut k: usize = 0;
        while k < 4
            invariant
                k <= 4,
                i < pixels@.len(),
                4 * pixels@.len() <= usize::MAX,
                target == be_pixels(u32_values(pixels@), 4),
                one@ == be_bytes(pixels@[i as int] as int, 4),
                buf@.len() == 4 * i + k,
                forall|j: int| 0 <= j < buf@.len() ==> #[trigger] buf@[j] == target[j],
            decreases 4 - k,
        {
            proof {
                let j = 4 * i + k;
                assert(j / 4 == i && j % 4 == k) by (nonlinear_arith)
                    requires j == 4 * i + k, k < 4;
                assert(j < 4 * pixels@.len()) by (nonlinear_arith)
                    requires j == 4 * i + k, k < 4, i < pixels@.len();
            }
            buf.push(one[k]);
            k += 1;
        }
        i += 1;
    }
    assert(buf@ =~= target);
    pad_with_zeros(&mut buf, padded);
    buf
}

/// The bit patterns as integers.
pub open spec fn u64_values(p: Seq<u64>) -> Seq<int> {
    Seq::new(p.len(), |i: int| p[i] as int)
}

/// Serialize `f64` pixels, given by their bit patterns, into big-endian,
/// block-padded FITS data.
pub fn serialize_image_f64(pixels: &[u64]) -> (r: Vec<u8>)
    requires
        spec_padded_len(8 * pixels@.len() as int) <= usize::MAX,
    ensures
        r@ == spec_pad_blocks(be_pixels(u64_values(pixels@), 8), 0u8),
{
    let ghost target = be_pixels(u64_values(pixels@), 8);
    proof { lemma_padded_len_bounds(8 * pixels@.len() as int); }
    let padded = padded_byte_len(pixels.len() * 8);
    let mut buf: Vec<u8> = Vec::new();
    let mut i: usize = 0;
    while i < pixels.len()
        invariant
            i <= pixels@.len(),
            8 * pixels@.len() <= usize::MAX,
            target == be_pixels(u64_values(pixels@), 8),
            buf@.len() == 8 * i,
            forall|j: int| 0 <= j < buf@.len() ==> #[trigger] buf@[j] == target[j],
        decreases pixels@.len() - i,
    {
        let mut one = [0u8; 8];
        write_u64_be(&mut one, pixels[i]);
        let ghost before = buf@;
        let mut k: usize = 0;
        while k < 8
            invariant
                k <= 8,
                i < pixels@.len(),
                8 * pixels@.len() <= usize::MAX,
                target == be_pixels(u64_values(pixels@), 8),
                one@ == be_bytes(pixels@[i as int] as int, 8),
                buf@.len() == 8 * i + k,
                forall|j: int| 0 <= j < buf@.len() ==> #[trigger] buf@[j] == target[j],
            decreases 8 - k,
        {
            proof {
                let j = 8 * i + k;
                assert(j / 8 == i && j % 8 == k) by (nonlinear_arith)
                    requires j == 8 * i + k, k < 8;
                assert(j < 8 * pixels@.len()) by (nonlinear_arith)
                    requires j == 8 * i + k, k < 8, i < pixels@.len();
            }
            buf.push(one[k]);
            k += 1;
        }
        i += 1;
    }
    assert(buf@ =~= target);
    pad_with_zeros(&mut buf, padded);
    buf
}

// ── Sections and rows ──

/// The number of pixels of an image: the product of its axes, 0 without axes.
pub open spec fn pixel_count(naxes: Seq<usize>) -> int {
    if naxes.len() == 0 { 0 } else { product(naxes) }
}

/// The image's axes multiply out within a `usize` (also leaving out the
/// first), and its data, 8 bytes per pixel at most, ends within the `usize`
/// range.
pub open spec fn image_fits(hdu: Hdu) -> bool {
    image_shape(hdu.info@) matches Some((_, naxes)) ==> prefix_products_fit(1, naxes)
        && (naxes.len() >= 1 ==> prefix_products_fit(1, naxes.subrange(1, naxes.len() as int)))
        && hdu.data_start + 8 * pixel_count(naxes) <= usize::MAX
}

/// The byte range of the pixels `[start_pixel, start_pixel + count)` of an
/// image HDU, and its BITPIX.
pub open spec fn spec_section_range(data_len: int, hdu: Hdu, start_pixel: int, count: int) -> core::result::Result<(i64, int, int), Error> {
    match image_shape(hdu.info@) {
        None => Err(Error::InvalidHeader),
        Some((bitpix, naxes)) => if !is_valid_bitpix(bitpix) {
            Err(Error::InvalidBitpix(bitpix))
        } else if start_pixel + count > usize::MAX {
            Err(Error::InvalidValue)
        } else if start_pixel + count > pixel_count(naxes) {
            Err(Error::UnexpectedEof)
        } else {
            let bpp = (if bitpix < 0 { -bitpix } else { bitpix as int }) / 8;
            let off = hdu.data_start + start_pixel * bpp;
            let end = off + count * bpp;
            if end > data_len {
                Err(Error::UnexpectedEof)
            } else {
                Ok((bitpix, off, end))
            }
        },
    }
}

/// The BITPIX and axes of an image HDU.
fn hdu_bitpix_naxes(hdu: &Hdu) -> (r: Result<(i64, &[usize])>)
    ensures
        r matches Ok((b, n)) ==> image_shape(hdu.info@) == Some((b, n@)),
        r is Err ==> image_shape(hdu.info@) is None,
        r matches Err(e) ==> e == Error::InvalidHeader,
{
    match &hdu.info {
        HduInfo::Primary { bitpix, naxes } => Ok((*bitpix, naxes.as_slice())),
        HduInfo::Image { bitpix, naxes } => Ok((*bitpix, naxes.as_slice())),
        HduInfo::CompressedImage { zbitpix, znaxes, .. } => Ok((*zbitpix, znaxes.as_slice())),
        _ => Err(Error::InvalidHeader),
    }
}

/// The raw bytes of the pixels `[start_pixel, start_pixel + count)` of an
/// image HDU, with the BITPIX that says how to read them.
pub fn image_section_bytes<'a>(fits_data: &'a [u8], hdu: &Hdu, start_pixel: usize, count: usize) -> (r: Result<(i64, &'a [u8])>)
    requires
        image_fits(*hdu),
    ensures
        r matches Ok((b, s)) ==> spec_section_range(fits_data@.len() as int, *hdu, start_pixel as int, count as int)
            matches Ok((b2, off, end)) && b == b2 && s@ == fits_data@.subrange(off, end),
        r matches Err(e) ==> spec_section_range(fits_data@.len() as int, *hdu, start_pixel as int, count as int)
            == Err::<(i64, int, int), Error>(e),
{
    let (bitpix, naxes) = match hdu_bitpix_naxes(hdu) {
        Ok(x) => x,
        Err(e) => return Err(e),
    };
    let bpp = match bytes_per_pixel(bitpix) {
        Ok(n) => n,
        Err(e) => return Err(e),
    };
    let total: usize = if naxes.len() == 0 { 0 } else { scaled_product(1, naxes) };
    let end_pixel = match start_pixel.checked_add(count) {
        Some(v) => v,
        None => return Err(Error::InvalidValue),
    };
    if end_pixel > total {
        return Err(Error::UnexpectedEof);
    }
    proof {
        assert(start_pixel * bpp + count * bpp == end_pixel * bpp) by (nonlinear_arith)
            requires end_pixel == start_pixel + count;
        assert(end_pixel * bpp <= 8 * total) by (nonlinear_arith)
            requires end_pixel <= total, bpp <= 8;
        assert(0 <= start_pixel * bpp) by (nonlinear_arith);
        assert(0 <= count * bpp) by (nonlinear_arith);
    }
    let byte_offset = hdu.data_start + start_pixel * bpp;
    let byte_end = byte_offset + count * bpp;
    if byte_end > fits_data.len() {
        return Err(Error::UnexpectedEof);
    }
    Ok((bitpix, &fits_data[byte_offset..byte_end]))
}

/// The pixel range of rows `[start_row, start_row + num_rows)` of an image
/// of two or more axes (a row is NAXIS1 pixels).
pub open spec fn spec_rows_range(naxes: Seq<usize>, start_row: int, num_rows: int) -> core::result::Result<(int, int), Error> {
    if naxes.len() < 2 {
        Err(Error::InvalidHeader)
    } else if start_row + num_rows > usize::MAX {
        Err(Error::InvalidValue)
    } else if start_row + num_rows > product(naxes.subrange(1, naxes.len() as int)) {
        Err(Error::UnexpectedEof)
    } else {
        Ok((start_row * naxes[0], num_rows * naxes[0]))
    }
}

/// The raw bytes of rows `[start_row, start_row + num_rows)` of an image of
/// two or more axes, with the BITPIX that says how to read them.
pub fn image_rows_bytes<'a>(fits_data: &'a [u8], hdu: &Hdu, start_row: usize, num_rows: usize) -> (r: Result<(i64, &'a [u8])>)
    requires
        image_fits(*hdu),
    ensures
        r matches Ok((b, s)) ==> image_shape(hdu.info@) matches Some((_, naxes))
            && spec_rows_range(naxes, start_row as int, num_rows as int) matches Ok((sp, cnt))
            && spec_section_range(fits_data@.len() as int, *hdu, sp, cnt) matches Ok((b2, off, end))
            && b == b2 && s@ == fits_data@.subrange(off, end),
        r matches Err(e) ==> match image_shape(hdu.info@) {
            None => e == Error::InvalidHeader,
            Some((_, naxes)) => match spec_rows_range(naxes, start_row as int, num_rows as int) {
                Err(e2) => e == e2,
                Ok((sp, cnt)) => spec_section_range(fits_data@.len() as int, *hdu, sp, cnt) == Err::<(i64, int, int), Error>(e),
            },
        },
{
    let (_, naxes) = match hdu_bitpix_naxes(hdu) {
        Ok(x) => x,
        Err(e) => return Err(e),
    };
    if naxes.len() < 2 {
        return Err(Error::InvalidHeader);
    }
    let row_len = naxes[0];
    proof {
        lemma_rows_product(naxes@);
    }
    let total_rows = scaled_product(1, &naxes[1..naxes.len()]);
    let end_row = match start_row.checked_add(num_rows) {
        Some(v) => v,
        None => return Err(Error::InvalidValue),
    };
    if end_row > total_rows {
        return Err(Error::UnexpectedEof);
    }
    proof {
        assert(naxes@.subrange(1, naxes@.len() as int) == naxes@.subrange(1, naxes@.len() as int));
        assert(end_row * row_len <= total_rows * row_len) by (nonlinear_arith)
            requires end_row <= total_rows;
        assert(start_row * row_len + num_rows * row_len == end_row * row_len) by (nonlinear_arith)
            requires end_row == start_row + num_rows;
        assert(0 <= start_row * row_len) by (nonlinear_arith);
        assert(0 <= num_rows * row_len) by (nonlinear_arith);
    }
    image_section_bytes(fits_data, hdu, start_row * row_len, num_rows * row_len)
}

/// The product of all axes is NAXIS1 times the product of the others.
proof fn lemma_rows_product(naxes: Seq<usize>)
    requires
        naxes.len() >= 2,
    ensures
        product(naxes) == product(naxes.subrange(1, naxes.len() as int)) * naxes[0],
{
    lemma_product_split(naxes, naxes.len() as int);
    assert(naxes.subrange(0, naxes.len() as int) =~= naxes);
}

/// Splitting off the first axis: `product(s[..k]) == product(s[1..k]) * s[0]`.
pub proof fn lemma_product_split(s: Seq<usize>, k: int)
    requires
        1 <= k <= s.len(),
    ensures
        product(s.subrange(0, k)) == product(s.subrange(1, k)) * s[0],
    decreases k,
{
    if k == 1 {
        assert(s.subrange(0, 1).drop_last() =~= Seq::<usize>::empty());
        assert(s.subrange(1, 1) =~= Seq::<usize>::empty());
    } else {
        lemma_product_split(s, k - 1);
        assert(s.subrange(0, k).drop_last() =~= s.subrange(0, k - 1));
        assert(s.subrange(1, k).drop_last() =~= s.subrange(1, k - 1));
        assert(product(s.subrange(0, k)) == product(s.subrange(0, k - 1)) * s[k - 1]);
        assert(product(s.subrange(1, k)) == product(s.subrange(1, k - 1)) * s[k - 1]);
        assert((product(s.subrange(1, k - 1)) * s[0]) * s[k - 1] == (product(s.subrange(1, k - 1)) * s[k - 1]) * s[0]) by (nonlinear_arith);
    }
}


// ── Pixel data ──

/// Raw image pixel data, typed by BITPIX.
///
/// IEEE floating-point pixels are carried by their bit patterns: `F32`
/// holds the `u32` bits of each `f32` (BITPIX -32), `F64` the `u64` bits of
/// each `f64` (BITPIX -64), as `to_bits` gives them.
#[derive(Debug, Clone, PartialEq)]
pub enum ImageData {
    U8(Vec<u8>),
    I16(Vec<i16>),
    I32(Vec<i32>),
    I64(Vec<i64>),
    F32(Vec<u32>),
    F64(Vec<u64>),
}

/// The content of an [`ImageData`].
pub enum ImageValues {
    U8(Seq<u8>),
    I16(Seq<i16>),
    I32(Seq<i32>),
    I64(Seq<i64>),
    F32(Seq<u32>),
    F64(Seq<u64>),
}

impl View for ImageData {
    type V = ImageValues;

    open spec fn view(&self) -> ImageValues {
        match self {
            ImageData::U8(v) => ImageValues::U8(v@),
            ImageData::I16(v) => ImageValues::I16(v@),
            ImageData::I32(v) => ImageValues::I32(v@),
            ImageData::I64(v) => ImageValues::I64(v@),
            ImageData::F32(v) => ImageValues::F32(v@),
            ImageData::F64(v) => ImageValues::F64(v@),
        }
    }
}

/// The number of `bpp`-byte pixels that `len` bytes fill, a partial last
/// one counting.
pub open spec fn pixels_in(len: nat, bpp: nat) -> nat {
    ((len + bpp - 1) / bpp as int) as nat
}

/// The bytes with zeros added up to a whole number of `bpp`-byte pixels.
pub open spec fn zero_padded(raw: Seq<u8>, bpp: nat) -> Seq<u8> {
    raw + Seq::new((pixels_in(raw.len(), bpp) * bpp - raw.len()) as nat, |i: int| 0u8)
}

/// The big-endian unsigned values of the consecutive `bpp`-byte pixels of
/// `raw` (a partial last pixel is completed with zero bytes).
pub open spec fn pixel_values(raw: Seq<u8>, bpp: nat) -> Seq<u64> {
    be_grid(zero_padded(raw, bpp), 0, 0, 1, 0, pixels_in(raw.len(), bpp), bpp as int, bpp)
}

/// The pixels that BITPIX `bitpix` reads from `raw`.
pub open spec fn spec_decode_pixels(raw: Seq<u8>, bitpix: i64) -> core::result::Result<ImageValues, Error> {
    if bitpix == 8 {
        Ok(ImageValues::U8(raw))
    } else if bitpix == 16 {
        Ok(ImageValues::I16(pixel_values(raw, 2).map_values(|u: u64| to_signed(u as int, 16) as i16)))
    } else if bitpix == 32 {
        Ok(ImageValues::I32(pixel_values(raw, 4).map_values(|u: u64| to_signed(u as int, 32) as i32)))
    } else if bitpix == 64 {
        Ok(ImageValues::I64(pixel_values(raw, 8).map_values(|u: u64| to_signed(u as int, 64) as i64)))
    } else if bitpix == -32 {
        Ok(ImageValues::F32(pixel_values(raw, 4).map_values(|u: u64| u as u32)))
    } else if bitpix == -64 {
        Ok(ImageValues::F64(pixel_values(raw, 8)))
    } else {
        Err(Error::InvalidBitpix(bitpix))
    }
}

/// The big-endian values of the `bpp`-byte pixels of `raw`.
#[verifier::spinoff_prover]
fn read_pixel_values(raw: &[u8], bpp: usize) -> (r: Vec<u64>)
    requires
        bpp == 2 || bpp == 4 || bpp == 8,
    ensures
        r@ == pixel_values(raw@, bpp as nat),
        forall|i: int| 0 <= i < r@.len() ==> r@[i] < pow256(bpp as nat),
{
    let len = raw.len();
    let pad: usize = if len % bpp == 0 { 0 } else { bpp - len % bpp };
    let mut padded: Vec<u8> = Vec::new();
    let mut i: usize = 0;
    while i < len
        invariant
            i <= len,
            len == raw@.len(),
            padded@ == raw@.subrange(0, i as int),
        decreases len - i,
    {
        padded.push(raw[i]);
        i += 1;
        assert(padded@ =~= raw@.subrange(0, i as int));
    }
    assert(raw@.subrange(0, len as int) =~= raw@);
    let mut j: usize = 0;
    while j < pad
        invariant
            j <= pad,
            padded@.len() == len + j,
            padded@.subrange(0, len as int) == raw@,
            forall|k: int| len <= k < padded@.len() ==> padded@[k] == 0u8,
        decreases pad - j,
    {
        padded.push(0u8);
        j += 1;
    }
    let n = padded.len() / bpp;
    proof {
        assert(n == pixels_in(len as nat, bpp as nat) && n * bpp == len + pad) by (nonlinear_arith)
            requires n == (len + pad) / (bpp as int), pad == (if len % bpp == 0 { 0int } else { bpp - len % bpp }), bpp > 0;
        assert(n > 0 ==> (n - 1) * bpp + bpp == n * bpp) by (nonlinear_arith);
    }
    assert(padded@ =~= zero_padded(raw@, bpp as nat));
    read_be_cells(padded.as_slice(), 0, 0, 1, 0, n, bpp, bpp)
}

/// Decode a contiguous byte slice into an `ImageData` variant based on BITPIX.
pub fn decode_pixels(raw: &[u8], bitpix: i64) -> (r: Result<ImageData>)
    ensures
        r matches Ok(d) ==> spec_decode_pixels(raw@, bitpix) == Ok::<ImageValues, Error>(d@),
        r matches Err(e) ==> spec_decode_pixels(raw@, bitpix) == Err::<ImageValues, Error>(e),
{
    proof { lemma_pow256_values(); }
    if bitpix == 8 {
        Ok(ImageData::U8(vstd::slice::slice_to_vec(raw)))
    } else if bitpix == 16 {
        Ok(ImageData::I16(shorts_of(read_pixel_values(raw, 2))))
    } else if bitpix == 32 {
        Ok(ImageData::I32(ints_of(read_pixel_values(raw, 4))))
    } else if bitpix == 64 {
        Ok(ImageData::I64(longs_of(read_pixel_values(raw, 8))))
    } else if bitpix == -32 {
        Ok(ImageData::F32(words_of(read_pixel_values(raw, 4))))
    } else if bitpix == -64 {
        Ok(ImageData::F64(read_pixel_values(raw, 8)))
    } else {
        Err(Error::InvalidBitpix(bitpix))
    }
}

/// Read a flat range of pixels `[start_pixel..start_pixel+count)` from the image data.
pub fn read_image_section(fits_data: &[u8], hdu: &Hdu, start_pixel: usize, count: usize) -> (r: Result<ImageData>)
    requires
        image_fits(*hdu),
    ensures
        r matches Ok(d) ==> spec_section_range(fits_data@.len() as int, *hdu, start_pixel as int, count as int)
            matches Ok((b, off, end)) && spec_decode_pixels(fits_data@.subrange(off, end), b) == Ok::<ImageValues, Error>(d@),
        r matches Err(e) ==> match spec_section_range(fits_data@.len() as int, *hdu, start_pixel as int, count as int) {
            Err(e2) => e == e2,
            Ok((b, off, end)) => spec_decode_pixels(fits_data@.subrange(off, end), b) == Err::<ImageValues, Error>(e),
        },
{
    let (bitpix, raw) = image_section_bytes(fits_data, hdu, start_pixel, count)?;
    decode_pixels(raw, bitpix)
}

/// Read complete rows `[start_row..start_row+num_rows)` from a 2D+ image.
///
/// Row length is NAXIS1 pixels. Requires `naxis >= 2`.
pub fn read_image_rows(fits_data: &[u8], hdu: &Hdu, start_row: usize, num_rows: usize) -> (r: Result<ImageData>)
    requires
        image_fits(*hdu),
    ensures
        r matches Ok(d) ==> image_shape(hdu.info@) matches Some((_, naxes))
            && spec_rows_range(naxes, start_row as int, num_rows as int) matches Ok((sp, cnt))
            && spec_section_range(fits_data@.len() as int, *hdu, sp, cnt) matches Ok((b, off, end))
            && spec_decode_pixels(fits_data@.subrange(off, end), b) == Ok::<ImageValues, Error>(d@),
        r matches Err(e) ==> match image_shape(hdu.info@) {
            None => e == Error::InvalidHeader,
            Some((_, naxes)) => match spec_rows_range(naxes, start_row as int, num_rows as int) {
                Err(e2) => e == e2,
                Ok((sp, cnt)) => match spec_section_range(fits_data@.len() as int, *hdu, sp, cnt) {
                    Err(e2) => e == e2,
                    Ok((b, off, end)) => spec_decode_pixels(fits_data@.subrange(off, end), b) == Err::<ImageValues, Error>(e),
                },
            },
        },
{
    let (bitpix, raw) = image_rows_bytes(fits_data, hdu, start_row, num_rows)?;
    decode_pixels(raw, bitpix)
}


// ── Regions ──

/// The step between neighbours along axis `d`: the product of the lengths
/// of the faster axes.
pub open spec fn axis_stride(naxes: Seq<usize>, d: int) -> int {
    product(naxes.subrange(0, d))
}

/// The flat indices of the pixels of the sub-box `ranges` over axes
/// `0..d`, offset by `base`, first axis fastest.
pub open spec fn region_indices(naxes: Seq<usize>, ranges: Seq<(usize, usize)>, d: nat, base: int) -> Seq<int>
    decreases d, 1nat, 0nat,
{
    if d == 0 {
        seq![base]
    } else {
        region_span(naxes, ranges, d, base, (ranges[d - 1].1 - ranges[d - 1].0) as nat)
    }
}

/// The flat indices of the first `i` slices, along axis `d - 1`, of the
/// sub-box over axes `0..d`.
pub open spec fn region_span(naxes: Seq<usize>, ranges: Seq<(usize, usize)>, d: nat, base: int, i: nat) -> Seq<int>
    decreases d, 0nat, i,
{
    if d == 0 || i == 0 {
        Seq::empty()
    } else {
        region_span(naxes, ranges, d, base, (i - 1) as nat)
            + region_indices(naxes, ranges, (d - 1) as nat, base + (ranges[d - 1].0 + i - 1) * axis_stride(naxes, d - 1))
    }
}

/// The bytes of the pixels at the flat indices `idx`, one after another.
pub open spec fn pixel_bytes(data: Seq<u8>, start: int, bpp: int, idx: Seq<int>) -> Seq<u8>
    decreases idx.len(),
{
    if idx.len() == 0 {
        Seq::empty()
    } else {
        pixel_bytes(data, start, bpp, idx.drop_last())
            + data.subrange(start + idx.last() * bpp, start + idx.last() * bpp + bpp)
    }
}

/// Every pixel at the flat indices `idx` lies inside the data.
pub open spec fn pixels_inside(data_len: int, start: int, bpp: int, idx: Seq<int>) -> bool {
    forall|k: int| 0 <= k < idx.len() ==> start + #[trigger] idx[k] * bpp + bpp <= data_len
}

/// The bytes of pixels at two runs of indices are the bytes of each run.
proof fn lemma_pixel_bytes_concat(data: Seq<u8>, start: int, bpp: int, a: Seq<int>, b: Seq<int>)
    ensures
        pixel_bytes(data, start, bpp, a + b) == pixel_bytes(data, start, bpp, a) + pixel_bytes(data, start, bpp, b),
    decreases b.len(),
{
    if b.len() == 0 {
        assert(a + b =~= a);
        assert(pixel_bytes(data, start, bpp, a) + pixel_bytes(data, start, bpp, b) =~= pixel_bytes(data, start, bpp, a));
    } else {
        lemma_pixel_bytes_concat(data, start, bpp, a, b.drop_last());
        assert((a + b).drop_last() =~= a + b.drop_last());
        assert((a + b).last() == b.last());
        assert(pixel_bytes(data, start, bpp, a) + pixel_bytes(data, start, bpp, b)
            =~= pixel_bytes(data, start, bpp, a) + pixel_bytes(data, start, bpp, b.drop_last())
                + data.subrange(start + b.last() * bpp, start + b.last() * bpp + bpp));
    }
}

/// The first `i` slices of a sub-box come first among its first `n`.
proof fn lemma_span_inside(data_len: int, start: int, bpp: int, naxes: Seq<usize>, ranges: Seq<(usize, usize)>, d: nat, base: int, i: nat, n: nat)
    requires
        i <= n,
        pixels_inside(data_len, start, bpp, region_span(naxes, ranges, d, base, n)),
    ensures
        pixels_inside(data_len, start, bpp, region_span(naxes, ranges, d, base, i)),
    decreases n,
{
    if i < n && d > 0 {
        let prev = region_span(naxes, ranges, d, base, (n - 1) as nat);
        let last = region_indices(naxes, ranges, (d - 1) as nat, base + (ranges[d - 1].0 + n - 1) * axis_stride(naxes, d - 1));
        assert forall|k: int| 0 <= k < prev.len() implies start + #[trigger] prev[k] * bpp + bpp <= data_len by {
            assert((prev + last)[k] == prev[k]);
        }
        lemma_span_inside(data_len, start, bpp, naxes, ranges, d, base, i, (n - 1) as nat);
    }
}

/// The strides of the axes: `1, naxes[0], naxes[0] * naxes[1], ...`.
pub(crate) fn axis_strides(naxes: &[usize]) -> (r: Vec<usize>)
    requires
        prefix_products_fit(1, naxes@),
    ensures
        r@.len() == naxes@.len(),
        forall|e: int| 0 <= e < naxes@.len() ==> r@[e] == axis_stride(naxes@, e),
{
    let mut strides: Vec<usize> = Vec::new();
    let mut s: usize = 1;
    let mut i: usize = 0;
    assert(naxes@.subrange(0, 0) =~= Seq::<usize>::empty());
    while i < naxes.len()
        invariant
            i <= naxes@.len(),
            prefix_products_fit(1, naxes@),
            s == product(naxes@.subrange(0, i as int)),
            strides@.len() == i,
            forall|e: int| 0 <= e < i ==> strides@[e] == axis_stride(naxes@, e),
        decreases naxes@.len() - i,
    {
        strides.push(s);
        proof {
            assert(naxes@.subrange(0, i + 1).drop_last() =~= naxes@.subrange(0, i as int));
            assert(product(naxes@.subrange(0, i + 1)) * 1 <= usize::MAX);
        }
        s = s * naxes[i];
        i += 1;
    }
    strides
}

/// The stride of the next axis is this axis's stride times its length.
pub proof fn lemma_axis_stride_step(naxes: Seq<usize>, d: int)
    requires
        0 <= d < naxes.len(),
    ensures
        axis_stride(naxes, d + 1) == axis_stride(naxes, d) * naxes[d],
        axis_stride(naxes, d) >= 0,
{
    assert(naxes.subrange(0, d + 1).drop_last() =~= naxes.subrange(0, d));
    crate::primary::lemma_product_nonneg(naxes.subrange(0, d));
}

/// Append the bytes of the pixels of the sub-box over axes `0..d` at
/// `base`; false when one of them lies past the end of the data.
fn copy_region(
    data: &[u8],
    start: usize,
    bpp: usize,
    naxes: &[usize],
    ranges: &[(usize, usize)],
    strides: &[usize],
    d: usize,
    base: usize,
    out: &mut Vec<u8>,
) -> (ok: bool)
    requires
        1 <= bpp <= 8,
        d <= naxes@.len(),
        ranges@.len() == naxes@.len(),
        strides@.len() == naxes@.len(),
        forall|e: int| 0 <= e < naxes@.len() ==> strides@[e] == axis_stride(naxes@, e),
        forall|e: int| 0 <= e < naxes@.len() ==> #[trigger] ranges@[e].0 <= ranges@[e].1 <= naxes@[e],
        base + axis_stride(naxes@, d as int) <= product(naxes@),
        start + 8 * product(naxes@) <= usize::MAX,
    ensures
        ok ==> pixels_inside(data@.len() as int, start as int, bpp as int, region_indices(naxes@, ranges@, d as nat, base as int))
            && final(out)@ == old(out)@ + pixel_bytes(data@, start as int, bpp as int, region_indices(naxes@, ranges@, d as nat, base as int)),
        !ok ==> !pixels_inside(data@.len() as int, start as int, bpp as int, region_indices(naxes@, ranges@, d as nat, base as int)),
    decreases d,
{
    let ghost out0 = out@;
    if d == 0 {
        proof {
            assert(naxes@.subrange(0, 0) =~= Seq::<usize>::empty());
            assert(base * bpp + bpp <= 8 * product(naxes@)) by (nonlinear_arith)
                requires base + 1 <= product(naxes@), bpp <= 8;
        }
        let off = start + base * bpp;
        let end = off + bpp;
        if end > data.len() {
            assert(region_indices(naxes@, ranges@, 0, base as int)[0] == base);
            return false;
        }
        let bytes = vstd::slice::slice_subrange(data, off, end);
        out.extend_from_slice(bytes);
        proof {
            let idx = region_indices(naxes@, ranges@, 0, base as int);
            assert(idx.len() == 1);
            assert(idx.last() == base as int);
            assert(idx.drop_last() =~= Seq::<int>::empty());
            assert(pixel_bytes(data@, start as int, bpp as int, idx.drop_last()) == Seq::<u8>::empty());
            assert(off == start + base * bpp);
            assert(pixel_bytes(data@, start as int, bpp as int, idx) =~= data@.subrange(off as int, end as int));
        }
        return true;
    }
    let e = d - 1;
    let (lo, hi) = ranges[e];
    let n = hi - lo;
    proof {
        lemma_axis_stride_step(naxes@, e as int);
        assert(ranges@[e as int].0 <= ranges@[e as int].1 <= naxes@[e as int]);
    }
    let stride = strides[e];
    let mut i: usize = 0;
    while i < n
        invariant
            i <= n,
            n == hi - lo,
            e == d - 1,
            (lo, hi) == ranges@[e as int],
            lo <= hi <= naxes@[e as int],
            stride == axis_stride(naxes@, e as int),
            axis_stride(naxes@, d as int) == stride * naxes@[e as int],
            stride >= 0,
            1 <= bpp <= 8,
            d <= naxes@.len(),
            ranges@.len() == naxes@.len(),
            strides@.len() == naxes@.len(),
            forall|e2: int| 0 <= e2 < naxes@.len() ==> strides@[e2] == axis_stride(naxes@, e2),
            forall|e2: int| 0 <= e2 < naxes@.len() ==> #[trigger] ranges@[e2].0 <= ranges@[e2].1 <= naxes@[e2],
            base + axis_stride(naxes@, d as int) <= product(naxes@),
            start + 8 * product(naxes@) <= usize::MAX,
            pixels_inside(data@.len() as int, start as int, bpp as int, region_span(naxes@, ranges@, d as nat, base as int, i as nat)),
            out@ == out0 + pixel_bytes(data@, start as int, bpp as int, region_span(naxes@, ranges@, d as nat, base as int, i as nat)),
        decreases n - i,
    {
        proof {
            assert((lo + i) * stride + stride <= stride * naxes@[e as int]) by (nonlinear_arith)
                requires lo + i + 1 <= naxes@[e as int], stride >= 0;
            assert((lo + i) * stride >= 0) by (nonlinear_arith) requires stride >= 0;
        }
        let child = base + (lo + i) * stride;
        let ghost before = out@;
        let ok = copy_region(data, start, bpp, naxes, ranges, strides, e, child, out);
        let ghost span = region_span(naxes@, ranges@, d as nat, base as int, i as nat);
        let ghost sub = region_indices(naxes@, ranges@, e as nat, child as int);
        proof {
            assert(region_span(naxes@, ranges@, d as nat, base as int, (i + 1) as nat) == span + sub);
        }
        if !ok {
            proof {
                if pixels_inside(data@.len() as int, start as int, bpp as int, region_indices(naxes@, ranges@, d as nat, base as int)) {
                    lemma_span_inside(data@.len() as int, start as int, bpp as int, naxes@, ranges@, d as nat, base as int, (i + 1) as nat, n as nat);
                    assert forall|k: int| 0 <= k < sub.len() implies start + #[trigger] sub[k] * bpp + bpp <= data@.len() by {
                        assert((span + sub)[span.len() + k] == sub[k]);
                    }
                }
            }
            return false;
        }
        proof {
            lemma_pixel_bytes_concat(data@, start as int, bpp as int, span, sub);
            assert(out@ =~= out0 + pixel_bytes(data@, start as int, bpp as int, span + sub));
            assert forall|k: int| 0 <= k < (span + sub).len() implies start + #[trigger] (span + sub)[k] * bpp + bpp <= data@.len() by {
                if k < span.len() {
                    assert((span + sub)[k] == span[k]);
                } else {
                    assert((span + sub)[k] == sub[k - span.len()]);
                }
            }
        }
        i += 1;
    }
    true
}

/// The pixels of the sub-box `ranges` (one `(start, end)` pair per axis,
/// end exclusive) of an image HDU, first axis fastest.
pub open spec fn spec_read_image_region(data: Seq<u8>, hdu: Hdu, ranges: Seq<(usize, usize)>)
    -> core::result::Result<ImageValues, Error> {
    match image_shape(hdu.info@) {
        None => Err(Error::InvalidHeader),
        Some((bitpix, naxes)) => if !is_valid_bitpix(bitpix) {
            Err(Error::InvalidBitpix(bitpix))
        } else if ranges.len() != naxes.len() {
            Err(Error::InvalidValue)
        } else if exists|e: int| 0 <= e < naxes.len() && !(#[trigger] ranges[e].0 <= ranges[e].1 <= naxes[e]) {
            Err(Error::InvalidValue)
        } else if naxes.len() == 0 {
            spec_decode_pixels(Seq::empty(), bitpix)
        } else {
            let bpp = (if bitpix < 0 { -bitpix } else { bitpix as int }) / 8;
            let idx = region_indices(naxes, ranges, naxes.len(), 0);
            if !pixels_inside(data.len() as int, hdu.data_start as int, bpp, idx) {
                Err(Error::UnexpectedEof)
            } else {
                spec_decode_pixels(pixel_bytes(data, hdu.data_start as int, bpp, idx), bitpix)
            }
        },
    }
}

/// Read a rectangular sub-region from an image of arbitrary dimensionality.
///
/// `ranges` contains one `(start, end)` pair per axis (end exclusive).
/// Returns pixels with the first axis varying fastest.
pub fn read_image_region(fits_data: &[u8], hdu: &Hdu, ranges: &[(usize, usize)]) -> (r: Result<ImageData>)
    requires
        image_fits(*hdu),
    ensures
        r matches Ok(d) ==> spec_read_image_region(fits_data@, *hdu, ranges@) == Ok::<ImageValues, Error>(d@),
        r matches Err(e) ==> spec_read_image_region(fits_data@, *hdu, ranges@) == Err::<ImageValues, Error>(e),
{
    let (bitpix, naxes) = hdu_bitpix_naxes(hdu)?;
    let bpp = bytes_per_pixel(bitpix)?;
    let ndim = naxes.len();
    if ranges.len() != ndim {
        return Err(Error::InvalidValue);
    }
    let mut k: usize = 0;
    while k < ndim
        invariant
            k <= ndim,
            ndim == naxes@.len(),
            ranges@.len() == ndim,
            image_shape(hdu.info@) == Some((bitpix, naxes@)),
            is_valid_bitpix(bitpix),
            forall|e: int| 0 <= e < k ==> #[trigger] ranges@[e].0 <= ranges@[e].1 <= naxes@[e],
        decreases ndim - k,
    {
        let (lo, hi) = ranges[k];
        if lo > hi || hi > naxes[k] {
            assert(!(ranges@[k as int].0 <= ranges@[k as int].1 <= naxes@[k as int]));
            return Err(Error::InvalidValue);
        }
        k += 1;
    }
    if ndim == 0 {
        let empty: [u8; 0] = [];
        assert(empty@ =~= Seq::<u8>::empty());
        return decode_pixels(&empty, bitpix);
    }
    proof {
        assert(naxes@.subrange(0, ndim as int) =~= naxes@);
        assert(product(naxes@.subrange(0, ndim as int)) * 1 <= usize::MAX);
        crate::primary::lemma_product_nonneg(naxes@);
    }
    let strides = axis_strides(naxes);
    let mut raw: Vec<u8> = Vec::new();
    let ok = copy_region(fits_data, hdu.data_start, bpp, naxes, ranges, strides.as_slice(), ndim, 0, &mut raw);
    if !ok {
        return Err(Error::UnexpectedEof);
    }
    assert(raw@ =~= pixel_bytes(fits_data@, hdu.data_start as int, bpp as int, region_indices(naxes@, ranges@, ndim as nat, 0)));
    decode_pixels(raw.as_slice(), bitpix)
}


// ── Whole images ──

/// The block-padded big-endian data of an image.
pub open spec fn spec_serialize_image(data: ImageValues) -> Seq<u8> {
    match data {
        ImageValues::U8(v) => spec_pad_blocks(v, 0u8),
        ImageValues::I16(v) => spec_pad_blocks(be_pixels(i16_values(v), 2), 0u8),
        ImageValues::I32(v) => spec_pad_blocks(be_pixels(i32_values(v), 4), 0u8),
        ImageValues::I64(v) => spec_pad_blocks(be_pixels(i64_values(v), 8), 0u8),
        ImageValues::F32(v) => spec_pad_blocks(be_pixels(u32_values(v), 4), 0u8),
        ImageValues::F64(v) => spec_pad_blocks(be_pixels(u64_values(v), 8), 0u8),
    }
}

/// The number of bytes the pixels take, unpadded.
pub open spec fn image_byte_len(data: ImageValues) -> int {
    match data {
        ImageValues::U8(v) => v.len() as int,
        ImageValues::I16(v) => 2 * v.len() as int,
        ImageValues::I32(v) => 4 * v.len() as int,
        ImageValues::I64(v) => 8 * v.len() as int,
        ImageValues::F32(v) => 4 * v.len() as int,
        ImageValues::F64(v) => 8 * v.len() as int,
    }
}

/// Serialize an `ImageData` variant into block-padded FITS data bytes.
pub fn serialize_image(data: &ImageData) -> (r: Vec<u8>)
    requires
        spec_padded_len(image_byte_len(data@)) <= usize::MAX,
    ensures
        r@ == spec_serialize_image(data@),
{
    match data {
        ImageData::U8(v) => serialize_image_u8(v.as_slice()),
        ImageData::I16(v) => serialize_image_i16(v.as_slice()),
        ImageData::I32(v) => serialize_image_i32(v.as_slice()),
        ImageData::I64(v) => serialize_image_i64(v.as_slice()),
        ImageData::F32(v) => serialize_image_f32(v.as_slice()),
        ImageData::F64(v) => serialize_image_f64(v.as_slice()),
    }
}

/// A primary image HDU: the serialized header of the given BITPIX and
/// axes, then the serialized pixels.
pub open spec fn spec_build_image_hdu(bitpix: i64, naxes: Seq<usize>, data: ImageValues) -> core::result::Result<Seq<u8>, Error> {
    if !is_valid_bitpix(bitpix) {
        Err(Error::InvalidBitpix(bitpix))
    } else {
        Ok(spec_serialize_header(spec_primary_cards(bitpix, naxes)) + spec_serialize_image(data))
    }
}

/// Build a complete image HDU (header + data) as a byte vector.
pub fn build_image_hdu(bitpix: i64, naxes: &[usize], data: &ImageData) -> (r: Result<Vec<u8>>)
    requires
        80 * (naxes@.len() + 4) + 2880 + spec_padded_len(image_byte_len(data@)) <= usize::MAX,
    ensures
        r matches Ok(b) ==> spec_build_image_hdu(bitpix, naxes@, data@) == Ok::<Seq<u8>, Error>(b@),
        r matches Err(e) ==> spec_build_image_hdu(bitpix, naxes@, data@) == Err::<Seq<u8>, Error>(e),
{
    let cards = build_primary_header(bitpix, naxes)?;
    proof {
        assert(cards@.len() == cards_view(cards@).len());
        assert(spec_primary_cards(bitpix, naxes@).len() == naxes@.len() + 3);
        lemma_padded_len_bounds(image_byte_len(data@));
        lemma_padded_len_bounds((80 * (cards@.len() + 1)) as int);
    }
    let header_bytes = serialize_header(cards.as_slice());
    let data_bytes = serialize_image(data);
    proof {
        assert(header_bytes@.len() == spec_padded_len((80 * (cards@.len() + 1)) as int));
    }
    let mut hdu: Vec<u8> = Vec::new();
    hdu.extend_from_slice(header_bytes.as_slice());
    hdu.extend_from_slice(data_bytes.as_slice());
    assert(hdu@ =~= header_bytes@ + data_bytes@);
    Ok(hdu)
}


// ── Undefined pixels ──

/// Extract the BLANK keyword value from header cards: the value of the
/// first BLANK card that holds an integer.
///
/// The BLANK keyword defines the integer value used to represent undefined
/// pixels in images with positive BITPIX (8, 16, 32, 64).
pub fn extract_blank(cards: &[Card]) -> (r: Option<i64>)
    ensures
        r matches Some(n) ==> card_int(cards_view(cards@), kw_pad(seq![66u8, 76u8, 65u8, 78u8, 75u8])) == Some(n as int),
        r is None ==> card_int(cards_view(cards@), kw_pad(seq![66u8, 76u8, 65u8, 78u8, 75u8])) is None,
{
    let name = [66u8, 76u8, 65u8, 78u8, 75u8];
    let k = kw(&name);
    assert(name@ =~= seq![66u8, 76u8, 65u8, 78u8, 75u8]);
    card_integer_value(cards, &k)
}

/// The IEEE single-precision bit pattern is a NaN: all exponent bits set
/// and a nonzero fraction.
pub open spec fn f32_bits_nan(b: u32) -> bool {
    (b & 0x7F80_0000u32) == 0x7F80_0000u32 && (b & 0x007F_FFFFu32) != 0
}

/// The IEEE double-precision bit pattern is a NaN: all exponent bits set
/// and a nonzero fraction.
pub open spec fn f64_bits_nan(b: u64) -> bool {
    (b & 0x7FF0_0000_0000_0000u64) == 0x7FF0_0000_0000_0000u64 && (b & 0x000F_FFFF_FFFF_FFFFu64) != 0
}

/// Which pixels are undefined: equal to BLANK (taken at the pixel type's
/// width) for integer images, NaN for floating-point images.
pub open spec fn undefined_pixels(data: ImageValues, blank: Option<i64>) -> Option<Seq<bool>> {
    match data {
        ImageValues::U8(v) => match blank {
            Some(b) => Some(v.map_values(|p: u8| p == b as u8)),
            None => None,
        },
        ImageValues::I16(v) => match blank {
            Some(b) => Some(v.map_values(|p: i16| p == b as i16)),
            None => None,
        },
        ImageValues::I32(v) => match blank {
            Some(b) => Some(v.map_values(|p: i32| p == b as i32)),
            None => None,
        },
        ImageValues::I64(v) => match blank {
            Some(b) => Some(v.map_values(|p: i64| p == b)),
            None => None,
        },
        ImageValues::F32(v) => Some(v.map_values(|p: u32| f32_bits_nan(p))),
        ImageValues::F64(v) => Some(v.map_values(|p: u64| f64_bits_nan(p))),
    }
}

/// `m` marks exactly the pixels `0..n` for which `hit` holds, and is there
/// exactly when one of them is marked.
pub open spec fn marks_exactly(m: Option<Seq<bool>>, n: nat, hit: spec_fn(int) -> bool) -> bool {
    &&& (m is Some <==> exists|i: int| 0 <= i < n && #[trigger] hit(i))
    &&& (m matches Some(mm) ==> mm.len() == n && forall|i: int| 0 <= i < n ==> #[trigger] mm[i] == hit(i))
}

/// A mask that is there when it marks a pixel marks what `hit` does.
proof fn lemma_marks_exactly(m: Seq<bool>, hit: spec_fn(int) -> bool)
    requires
        forall|i: int| 0 <= i < m.len() ==> #[trigger] m[i] == hit(i),
    ensures
        marks_exactly(if exists|i: int| 0 <= i < m.len() && #[trigger] m[i] { Some(m) } else { None }, m.len(), hit),
{
    if exists|i: int| 0 <= i < m.len() && #[trigger] hit(i) {
        let i = choose|i: int| 0 <= i < m.len() && #[trigger] hit(i);
        assert(m[i]);
    }
    if exists|i: int| 0 <= i < m.len() && #[trigger] m[i] {
        let i = choose|i: int| 0 <= i < m.len() && #[trigger] m[i];
        assert(hit(i));
    }
}

/// A single-precision NaN: the 8 exponent bits all set and a nonzero
/// 23-bit fraction.
proof fn lemma_f32_nan_fields(p: u32)
    ensures
        f32_bits_nan(p) == ((p / 0x80_0000) % 0x100 == 0xFF && p % 0x80_0000 != 0),
{
    assert(f32_bits_nan(p) == ((p / 0x80_0000) % 0x100 == 0xFF && p % 0x80_0000 != 0)) by (bit_vector);
}

/// A double-precision NaN: the 11 exponent bits all set and a nonzero
/// 52-bit fraction.
proof fn lemma_f64_nan_fields(p: u64)
    ensures
        f64_bits_nan(p) == ((p / 0x10_0000_0000_0000) % 0x800 == 0x7FF && p % 0x10_0000_0000_0000 != 0),
{
    assert(f64_bits_nan(p) == ((p / 0x10_0000_0000_0000) % 0x800 == 0x7FF && p % 0x10_0000_0000_0000 != 0)) by (bit_vector);
}

/// What the mask of undefined pixels marks: for an integer image with a
/// BLANK value, exactly the pixels equal to BLANK taken at the pixel's
/// width (and there is no mask without BLANK); for a floating-point image,
/// exactly the NaN pixels. There is a mask only when it marks a pixel.
pub proof fn lemma_blank_mask_marks(data: ImageValues, blank: Option<i64>)
    ensures
        match data {
            ImageValues::U8(v) => match blank {
                Some(b) => marks_exactly(spec_blank_mask(data, blank), v.len(), |i: int| v[i] == b as u8),
                None => spec_blank_mask(data, blank) is None,
            },
            ImageValues::I16(v) => match blank {
                Some(b) => marks_exactly(spec_blank_mask(data, blank), v.len(), |i: int| v[i] == b as i16),
                None => spec_blank_mask(data, blank) is None,
            },
            ImageValues::I32(v) => match blank {
                Some(b) => marks_exactly(spec_blank_mask(data, blank), v.len(), |i: int| v[i] == b as i32),
                None => spec_blank_mask(data, blank) is None,
            },
            ImageValues::I64(v) => match blank {
                Some(b) => marks_exactly(spec_blank_mask(data, blank), v.len(), |i: int| v[i] == b),
                None => spec_blank_mask(data, blank) is None,
            },
            ImageValues::F32(v) => marks_exactly(spec_blank_mask(data, blank), v.len(),
                |i: int| (v[i] / 0x80_0000) % 0x100 == 0xFF && v[i] % 0x80_0000 != 0),
            ImageValues::F64(v) => marks_exactly(spec_blank_mask(data, blank), v.len(),
                |i: int| (v[i] / 0x10_0000_0000_0000) % 0x800 == 0x7FF && v[i] % 0x10_0000_0000_0000 != 0),
        },
{
    match data {
        ImageValues::U8(v) => if let Some(b) = blank {
            lemma_marks_exactly(v.map_values(|p: u8| p == b as u8), |i: int| v[i] == b as u8);
        },
        ImageValues::I16(v) => if let Some(b) = blank {
            lemma_marks_exactly(v.map_values(|p: i16| p == b as i16), |i: int| v[i] == b as i16);
        },
        ImageValues::I32(v) => if let Some(b) = blank {
            lemma_marks_exactly(v.map_values(|p: i32| p == b as i32), |i: int| v[i] == b as i32);
        },
        ImageValues::I64(v) => if let Some(b) = blank {
            lemma_marks_exactly(v.map_values(|p: i64| p == b), |i: int| v[i] == b);
        },
        ImageValues::F32(v) => {
            assert forall|i: int| 0 <= i < v.len() implies f32_bits_nan(#[trigger] v[i])
                == ((v[i] / 0x80_0000) % 0x100 == 0xFF && v[i] % 0x80_0000 != 0) by {
                lemma_f32_nan_fields(v[i]);
            }
            lemma_marks_exactly(v.map_values(|p: u32| f32_bits_nan(p)),
                |i: int| (v[i] / 0x80_0000) % 0x100 == 0xFF && v[i] % 0x80_0000 != 0);
        },
        ImageValues::F64(v) => {
            assert forall|i: int| 0 <= i < v.len() implies f64_bits_nan(#[trigger] v[i])
                == ((v[i] / 0x10_0000_0000_0000) % 0x800 == 0x7FF && v[i] % 0x10_0000_0000_0000 != 0) by {
                lemma_f64_nan_fields(v[i]);
            }
            lemma_marks_exactly(v.map_values(|p: u64| f64_bits_nan(p)),
                |i: int| (v[i] / 0x10_0000_0000_0000) % 0x800 == 0x7FF && v[i] % 0x10_0000_0000_0000 != 0);
        },
    }
}

/// The mask of undefined pixels, when there is one and it marks a pixel.
pub open spec fn spec_blank_mask(data: ImageValues, blank: Option<i64>) -> Option<Seq<bool>> {
    match undefined_pixels(data, blank) {
        Some(m) => if exists|i: int| 0 <= i < m.len() && #[trigger] m[i] { Some(m) } else { None },
        None => None,
    }
}

/// A mask that marks a pixel is the blank mask.
proof fn lemma_blank_mask_marked(data: ImageValues, blank: Option<i64>, m: Seq<bool>, j: int)
    requires
        undefined_pixels(data, blank) == Some(m),
        0 <= j < m.len(),
        m[j],
    ensures
        spec_blank_mask(data, blank) == Some(m),
{
    assert(exists|i: int| 0 <= i < m.len() && #[trigger] m[i]);
}

/// Create a boolean mask indicating which pixels are undefined (BLANK).
///
/// Returns a `Vec<bool>` with the same length as the pixel array, where
/// `true` means the pixel is undefined. For floating-point types, NaN
/// pixels are marked as undefined regardless of the BLANK keyword.
///
/// Returns `None` if the image data is empty or no BLANK/NaN values exist.
pub fn blank_mask(data: &ImageData, blank: Option<i64>) -> (r: Option<Vec<bool>>)
    ensures
        r matches Some(m) ==> spec_blank_mask(data@, blank) == Some(m@),
        r is None ==> spec_blank_mask(data@, blank) is None,
{
    let mut mask: Vec<bool> = Vec::new();
    let mut any = false;
    let mut i: usize = 0;
    match data {
        ImageData::U8(v) => {
            let b = match blank { Some(b) => b as u8, None => return None };
            while i < v.len()
                invariant
                    i <= v@.len(),
                    blank matches Some(bb) && b == bb as u8,
                    mask@ == v@.subrange(0, i as int).map_values(|p: u8| p == b),
                    any <==> exists|j: int| 0 <= j < i && #[trigger] mask@[j],
                decreases v@.len() - i,
            {
                let x = v[i] == b;
                let ghost prev = mask@;
                mask.push(x);
                if x { any = true; }
                proof {
                    assert(mask@[i as int] == x);
                    assert(forall|j: int| 0 <= j < i ==> mask@[j] == prev[j]);
                }
                i += 1;
                assert(mask@ =~= v@.subrange(0, i as int).map_values(|p: u8| p == b));
            }
            assert(v@.subrange(0, v@.len() as int) =~= v@);
            assert(undefined_pixels(data@, blank) == Some(mask@));
            assert(mask@ =~= v@.map_values(|p: u8| p == blank.unwrap() as u8));
        },
        ImageData::I16(v) => {
            let b = match blank { Some(b) => b as i16, None => return None };
            while i < v.len()
                invariant
                    i <= v@.len(),
                    blank matches Some(bb) && b == bb as i16,
                    mask@ == v@.subrange(0, i as int).map_values(|p: i16| p == b),
                    any <==> exists|j: int| 0 <= j < i && #[trigger] mask@[j],
                decreases v@.len() - i,
            {
                let x = v[i] == b;
                let ghost prev = mask@;
                mask.push(x);
                if x { any = true; }
                proof {
                    assert(mask@[i as int] == x);
                    assert(forall|j: int| 0 <= j < i ==> mask@[j] == prev[j]);
                }
                i += 1;
                assert(mask@ =~= v@.subrange(0, i as int).map_values(|p: i16| p == b));
            }
            assert(v@.subrange(0, v@.len() as int) =~= v@);
            assert(undefined_pixels(data@, blank) == Some(mask@));
            assert(mask@ =~= v@.map_values(|p: i16| p == blank.unwrap() as i16));
        },
        ImageData::I32(v) => {
            let b = match blank { Some(b) => b as i32, None => return None };
            while i < v.len()
                invariant
                    i <= v@.len(),
                    blank matches Some(bb) && b == bb as i32,
                    mask@ == v@.subrange(0, i as int).map_values(|p: i32| p == b),
                    any <==> exists|j: int| 0 <= j < i && #[trigger] mask@[j],
                decreases v@.len() - i,
            {
                let x = v[i] == b;
                let ghost prev = mask@;
                mask.push(x);
                if x { any = true; }
                proof {
                    assert(mask@[i as int] == x);
                    assert(forall|j: int| 0 <= j < i ==> mask@[j] == prev[j]);
                }
                i += 1;
                assert(mask@ =~= v@.subrange(0, i as int).map_values(|p: i32| p == b));
            }
            assert(v@.subrange(0, v@.len() as int) =~= v@);
            assert(undefined_pixels(data@, blank) == Some(mask@));
            assert(mask@ =~= v@.map_values(|p: i32| p == blank.unwrap() as i32));
        },
        ImageData::I64(v) => {
            let b = match blank { Some(b) => b, None => return None };
            while i < v.len()
                invariant
                    i <= v@.len(),
                    blank == Some(b),
                    mask@ == v@.subrange(0, i as int).map_values(|p: i64| p == b),
                    any <==> exists|j: int| 0 <= j < i && #[trigger] mask@[j],
                decreases v@.len() - i,
            {
                let x = v[i] == b;
                let ghost prev = mask@;
                mask.push(x);
                if x { any = true; }
                proof {
                    assert(mask@[i as int] == x);
                    assert(forall|j: int| 0 <= j < i ==> mask@[j] == prev[j]);
                }
                i += 1;
                assert(mask@ =~= v@.subrange(0, i as int).map_values(|p: i64| p == b));
            }
            assert(v@.subrange(0, v@.len() as int) =~= v@);
            assert(undefined_pixels(data@, blank) == Some(mask@));
        },
        ImageData::F32(v) => {
            while i < v.len()
                invariant
                    i <= v@.len(),
                    mask@ == v@.subrange(0, i as int).map_values(|p: u32| f32_bits_nan(p)),
                    any <==> exists|j: int| 0 <= j < i && #[trigger] mask@[j],
                decreases v@.len() - i,
            {
                let p = v[i];
                let x = (p & 0x7F80_0000u32) == 0x7F80_0000u32 && (p & 0x007F_FFFFu32) != 0;
                let ghost prev = mask@;
                mask.push(x);
                if x { any = true; }
                proof {
                    assert(mask@[i as int] == x);
                    assert(forall|j: int| 0 <= j < i ==> mask@[j] == prev[j]);
                }
                i += 1;
                assert(mask@ =~= v@.subrange(0, i as int).map_values(|p: u32| f32_bits_nan(p)));
            }
            assert(v@.subrange(0, v@.len() as int) =~= v@);
            assert(undefined_pixels(data@, blank) == Some(mask@));
        },
        ImageData::F64(v) => {
            while i < v.len()
                invariant
                    i <= v@.len(),
                    mask@ == v@.subrange(0, i as int).map_values(|p: u64| f64_bits_nan(p)),
                    any <==> exists|j: int| 0 <= j < i && #[trigger] mask@[j],
                decreases v@.len() - i,
            {
                let p = v[i];
                let x = (p & 0x7FF0_0000_0000_0000u64) == 0x7FF0_0000_0000_0000u64 && (p & 0x000F_FFFF_FFFF_FFFFu64) != 0;
                let ghost prev = mask@;
                mask.push(x);
                if x { any = true; }
                proof {
                    assert(mask@[i as int] == x);
                    assert(forall|j: int| 0 <= j < i ==> mask@[j] == prev[j]);
                }
                i += 1;
                assert(mask@ =~= v@.subrange(0, i as int).map_values(|p: u64| f64_bits_nan(p)));
            }
            assert(v@.subrange(0, v@.len() as int) =~= v@);
            assert(undefined_pixels(data@, blank) == Some(mask@));
        },
    }
    assert(undefined_pixels(data@, blank) == Some(mask@));
    assert(any <==> exists|j: int| 0 <= j < mask@.len() && #[trigger] mask@[j]);
    if any {
        proof {
            let j = choose|j: int| 0 <= j < mask@.len() && #[trigger] mask@[j];
            lemma_blank_mask_marked(data@, blank, mask@, j);
        }
        Some(mask)
    } else {
        None
    }
}


// ── Reading whole images ──

/// The BITPIX of an uncompressed image HDU.
pub open spec fn plain_bitpix(info: HduInfoModel) -> Option<i64> {
    match info {
        HduInfoModel::Primary { bitpix, .. } => Some(bitpix),
        HduInfoModel::Image { bitpix, .. } => Some(bitpix),
        _ => None,
    }
}

/// The pixels of an image HDU: decompressed tiles for a compressed image,
/// else the data segment read by BITPIX.
pub open spec fn spec_read_image_data(data: Seq<u8>, hdu: HduModel) -> core::result::Result<ImageValues, Error> {
    if hdu.info is CompressedImage {
        spec_read_tiled_image(data, hdu)
    } else {
        match plain_bitpix(hdu.info) {
            None => Err(Error::InvalidHeader),
            Some(bitpix) => if hdu.data_len == 0 {
                spec_decode_pixels(Seq::empty(), bitpix)
            } else if hdu.data_start + hdu.data_len > data.len() {
                Err(Error::UnexpectedEof)
            } else {
                spec_decode_pixels(data.subrange(hdu.data_start, hdu.data_start + hdu.data_len), bitpix)
            },
        }
    }
}

/// Read raw image pixel data from a FITS byte stream for the given HDU.
///
/// Converts big-endian on-disk bytes to typed values. Returns an
/// `ImageData` variant matching the BITPIX type.
pub fn read_image_data(fits_data: &[u8], hdu: &Hdu) -> (r: Result<ImageData>)
    requires
        hdu.info@ is CompressedImage ==> tiled_readable(fits_data@.len() as int, hdu@),
    ensures
        r matches Ok(d) ==> spec_read_image_data(fits_data@, hdu@) == Ok::<ImageValues, Error>(d@),
        r matches Err(e) ==> spec_read_image_data(fits_data@, hdu@) == Err::<ImageValues, Error>(e),
{
    let bitpix = match &hdu.info {
        HduInfo::CompressedImage { .. } => return read_tiled_image(fits_data, hdu),
        HduInfo::Primary { bitpix, .. } => *bitpix,
        HduInfo::Image { bitpix, .. } => *bitpix,
        _ => return Err(Error::InvalidHeader),
    };
    let data_len = hdu.data_len;
    if data_len == 0 {
        let empty: [u8; 0] = [];
        assert(empty@ =~= Seq::<u8>::empty());
        return decode_pixels(&empty, bitpix);
    }
    if hdu.data_start > fits_data.len() || data_len > fits_data.len() - hdu.data_start {
        return Err(Error::UnexpectedEof);
    }
    let end = hdu.data_start + data_len;
    decode_pixels(vstd::slice::slice_subrange(fits_data, hdu.data_start, end), bitpix)
}


// ── Writing and reading back ──

/// Pixel `r` of big-endian bytes reads back as its unsigned form.
proof fn lemma_be_pixels_read(vals: Seq<int>, k: nat, r: int)
    requires
        k == 1 || k == 2 || k == 4 || k == 8,
        0 <= r < vals.len(),
        0 <= to_unsigned(vals[r], 8 * k) < pow256(k),
    ensures
        be_uint(be_pixels(vals, k).subrange(r * k, be_pixels(vals, k).len() as int), k) == to_unsigned(vals[r], 8 * k),
{
    let b = be_pixels(vals, k);
    let u = to_unsigned(vals[r], 8 * k);
    crate::endian::lemma_be_roundtrip(u, k, Seq::empty());
    assert(r * k + k <= vals.len() * k) by (nonlinear_arith)
        requires r + 1 <= vals.len(), k >= 1;
    let piece = b.subrange(r * k, b.len() as int);
    assert forall|i: int| 0 <= i < k implies #[trigger] piece.subrange(0, k as int)[i] == be_bytes(u, k)[i] by {
        let j = r * k + i;
        assert(j / (k as int) == r && j % (k as int) == i) by (nonlinear_arith)
            requires j == r * k + i, 0 <= i < k;
        assert(0 <= j < vals.len() * k) by (nonlinear_arith)
            requires j == r * k + i, 0 <= i < k, r + 1 <= vals.len(), r >= 0;
    }
    assert(piece.subrange(0, k as int) =~= be_bytes(u, k));
    assert((be_bytes(u, k) + Seq::<u8>::empty()).subrange(0, k as int) =~= be_bytes(u, k));
    crate::endian::lemma_be_uint_prefix(piece, be_bytes(u, k) + Seq::<u8>::empty(), k);
}

/// The BITPIX whose pixels an image's data holds.
pub open spec fn bitpix_of(data: ImageValues) -> i64 {
    match data {
        ImageValues::U8(_) => 8,
        ImageValues::I16(_) => 16,
        ImageValues::I32(_) => 32,
        ImageValues::I64(_) => 64,
        ImageValues::F32(_) => -32i64,
        ImageValues::F64(_) => -64i64,
    }
}

/// Reading back the serialized pixels of an image (its data before the
/// block padding) with the image's BITPIX gives the pixels back.
#[verifier::spinoff_prover]
#[verifier::rlimit(60)]
pub proof fn lemma_image_roundtrip(data: ImageValues)
    ensures
        spec_decode_pixels(spec_serialize_image(data).subrange(0, image_byte_len(data)), bitpix_of(data))
            == Ok::<ImageValues, Error>(data),
{
    lemma_pow256_values();
    let k: nat = match data {
        ImageValues::U8(_) => 1,
        ImageValues::I16(_) => 2,
        ImageValues::I32(_) => 4,
        ImageValues::I64(_) => 8,
        ImageValues::F32(_) => 4,
        ImageValues::F64(_) => 8,
    };
    match data {
        ImageValues::U8(v) => {
            assert(spec_serialize_image(data).subrange(0, image_byte_len(data)) =~= v);
        },
        ImageValues::I16(v) => {
            let vals = i16_values(v);
            let b = be_pixels(vals, 2);
            assert(spec_serialize_image(data).subrange(0, image_byte_len(data)) =~= b);
            lemma_pixels_of_be(vals, 2);
            let m = pixel_values(b, 2).map_values(|u: u64| to_signed(u as int, 16) as i16);
            assert forall|r: int| 0 <= r < v.len() implies m[r] == v[r] by {
                lemma_be_pixels_read(vals, 2, r);
            }
            assert(m =~= v);
        },
        ImageValues::I32(v) => {
            let vals = i32_values(v);
            let b = be_pixels(vals, 4);
            assert(spec_serialize_image(data).subrange(0, image_byte_len(data)) =~= b);
            lemma_pixels_of_be(vals, 4);
            let m = pixel_values(b, 4).map_values(|u: u64| to_signed(u as int, 32) as i32);
            assert forall|r: int| 0 <= r < v.len() implies m[r] == v[r] by {
                lemma_be_pixels_read(vals, 4, r);
            }
            assert(m =~= v);
        },
        ImageValues::I64(v) => {
            let vals = i64_values(v);
            let b = be_pixels(vals, 8);
            assert(spec_serialize_image(data).subrange(0, image_byte_len(data)) =~= b);
            lemma_pixels_of_be(vals, 8);
            let m = pixel_values(b, 8).map_values(|u: u64| to_signed(u as int, 64) as i64);
            assert forall|r: int| 0 <= r < v.len() implies m[r] == v[r] by {
                lemma_be_pixels_read(vals, 8, r);
            }
            assert(m =~= v);
        },
        ImageValues::F32(v) => {
            let vals = u32_values(v);
            let b = be_pixels(vals, 4);
            assert(spec_serialize_image(data).subrange(0, image_byte_len(data)) =~= b);
            lemma_pixels_of_be(vals, 4);
            let m = pixel_values(b, 4).map_values(|u: u64| u as u32);
            assert forall|r: int| 0 <= r < v.len() implies m[r] == v[r] by {
                lemma_be_pixels_read(vals, 4, r);
            }
            assert(m =~= v);
        },
        ImageValues::F64(v) => {
            let vals = u64_values(v);
            let b = be_pixels(vals, 8);
            assert(spec_serialize_image(data).subrange(0, image_byte_len(data)) =~= b);
            lemma_pixels_of_be(vals, 8);
            let m = pixel_values(b, 8);
            assert forall|r: int| 0 <= r < v.len() implies m[r] == v[r] by {
                lemma_be_pixels_read(vals, 8, r);
            }
            assert(m =~= v);
        },
    }
}

/// The pixel values of whole big-endian pixels: one per pixel, each the
/// big-endian value at its place.
proof fn lemma_pixels_of_be(vals: Seq<int>, k: nat)
    requires
        k == 2 || k == 4 || k == 8,
    ensures
        pixel_values(be_pixels(vals, k), k).len() == vals.len(),
        forall|r: int| 0 <= r < vals.len() ==> #[trigger] pixel_values(be_pixels(vals, k), k)[r]
            == be_uint(be_pixels(vals, k).subrange(r * k, be_pixels(vals, k).len() as int), k) as u64,
{
    let b = be_pixels(vals, k);
    let n = vals.len();
    assert(pixels_in(b.len(), k) == n) by (nonlinear_arith)
        requires b.len() == n * k, k >= 2, pixels_in(b.len(), k) == ((b.len() + k - 1) / k as int) as nat;
    assert(n * k - b.len() == 0) by (nonlinear_arith) requires b.len() == n * k;
    assert(zero_padded(b, k) =~= b);
    let zb = zero_padded(b, k);
    let f = |row: int, r: int| crate::bintable::be_at(zb, crate::bintable::elem_pos(0, 0, 0, k as int, row, r), k) as u64;
    assert(pixel_values(b, k) == crate::bintable::cells(1, n, f));
    assert(crate::bintable::cells(0, n, f) =~= Seq::<u64>::empty());
    assert(crate::bintable::cells(1, n, f) =~= Seq::new(n, |r: int| f(0, r)));
    assert forall|r: int| 0 <= r < n implies #[trigger] pixel_values(b, k)[r]
        == crate::bintable::be_at(b, r * k, k) as u64 by {
        assert(crate::bintable::elem_pos(0, 0, 0, k as int, 0, r) == r * k);
    }
}

} // verus!
