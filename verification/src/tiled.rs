//! Tile-compressed image decompression for FITS.
//!
//! Supports RICE_1/RICE_ONE and GZIP_1 compression algorithms per the
//! FITS tiled image compression convention.
use vstd::prelude::*;

use crate::endian::{be_uint, read_i32_be, to_signed};
use crate::error::{Error, Result};
use crate::bintable::{byte_width, numbered_str, parse_tform_binary, spec_parse_tform_binary, tform_name, tforms_sliceable, ttype_name};
use crate::header::{cards_view, Card, CardModel};
use crate::text::{contains_text, has_substring, text_equals};
use crate::primary::{prefix_products_fit, product};
use crate::image::{axis_stride, decode_pixels, pixel_count, spec_decode_pixels, ImageData, ImageValues};
use crate::hdu::{Hdu, HduInfo, HduInfoModel, HduModel};
use crate::primary::is_valid_bitpix;

verus! {

// ── The bit stream ──

/// Bit `i` of the stream, most significant bit of each byte first; bits past
/// the end of the data read as 0.
pub open spec fn stream_bit(data: Seq<u8>, i: int) -> int {
    if 0 <= i < 8 * data.len() {
        ((data[i / 8] as int) / pow2_small(7 - i % 8)) % 2
    } else {
        0
    }
}

/// `2^k` for small `k`.
pub open spec fn pow2_small(k: int) -> int
    decreases k,
{
    if k <= 0 { 1 } else { 2 * pow2_small(k - 1) }
}

/// The value of the `n` bits starting at bit `p`, first bit most significant.
pub open spec fn stream_bits(data: Seq<u8>, p: int, n: nat) -> int
    decreases n,
{
    if n == 0 {
        0
    } else {
        stream_bits(data, p, (n - 1) as nat) * 2 + stream_bit(data, p + n - 1)
    }
}

/// The position of the first 1 bit at or after `p` within the data.
pub open spec fn first_one(data: Seq<u8>, p: int) -> Option<int>
    decreases 8 * data.len() - p,
{
    if p >= 8 * data.len() {
        None
    } else if p >= 0 && stream_bit(data, p) == 1 {
        Some(p)
    } else {
        first_one(data, p + 1)
    }
}

proof fn lemma_first_one(data: Seq<u8>, p: int)
    ensures
        first_one(data, p) matches Some(q) ==> p <= q < 8 * data.len() && stream_bit(data, q) == 1,
    decreases 8 * data.len() - p,
{
    if p < 8 * data.len() {
        lemma_first_one(data, p + 1);
    }
}

proof fn lemma_stream_bit_range(data: Seq<u8>, i: int)
    ensures
        0 <= stream_bit(data, i) <= 1,
{
}

proof fn lemma_stream_bits_range(data: Seq<u8>, p: int, n: nat)
    ensures
        0 <= stream_bits(data, p, n) < pow2_small(n as int),
    decreases n,
{
    if n > 0 {
        lemma_stream_bits_range(data, p, (n - 1) as nat);
        lemma_stream_bit_range(data, p + n - 1);
    }
}

proof fn lemma_pow2_small_values()
    ensures
        pow2_small(0) == 1,
        pow2_small(1) == 2,
        pow2_small(2) == 4,
        pow2_small(3) == 8,
        pow2_small(4) == 16,
        pow2_small(5) == 32,
        pow2_small(6) == 64,
        pow2_small(7) == 128,
        pow2_small(8) == 256,
{
    reveal_with_fuel(pow2_small, 9);
}

/// Bit `i` of the stream.
fn read_bit(data: &[u8], i: u64) -> (r: u32)
    requires
        data@.len() <= 0x1000_0000_0000_0000,
    ensures
        r as int == stream_bit(data@, i as int),
        r <= 1,
{
    if (data.len() as u64) <= i / 8 {
        return 0;
    }
    let byte = data[(i / 8) as usize];
    let shift = (7 - i % 8) as u32;
    let r = ((byte >> shift) & 1) as u32;
    proof {
        lemma_pow2_small_values();
        let k = 7 - (i as int) % 8;
        assert(0 <= k <= 7);
        assert((byte >> shift) as int == (byte as int) / pow2_small(k)) by {
            vstd::bits::lemma_u8_shr_is_div(byte, shift as u8);
            lemma_pow2_matches(shift as nat);
        }
        assert(((byte >> shift) & 1) == (byte >> shift) % 2) by (bit_vector);
    }
    r
}

/// `pow2_small` agrees with vstd's `pow2`.
proof fn lemma_pow2_matches(k: nat)
    ensures
        pow2_small(k as int) == vstd::arithmetic::power2::pow2(k),
    decreases k,
{
    if k > 0 {
        lemma_pow2_matches((k - 1) as nat);
        vstd::arithmetic::power2::lemma_pow2_unfold(k);
    } else {
        vstd::arithmetic::power2::lemma2_to64();
    }
}

/// The bit length of a byte (the position of its most significant 1 bit,
/// counting from 1; 0 for 0).
pub open spec fn bit_length(b: int) -> int
    decreases b,
{
    if b <= 0 { 0 } else { 1 + bit_length(b / 2) }
}

proof fn lemma_bit_length_bounds(b: int)
    requires
        0 < b,
    ensures
        pow2_small(bit_length(b) - 1) <= b < pow2_small(bit_length(b)),
        1 <= bit_length(b),
    decreases b,
{
    if b >= 2 {
        lemma_bit_length_bounds(b / 2);
        assert(bit_length(b / 2) >= 1);
        assert(pow2_small(bit_length(b)) == 2 * pow2_small(bit_length(b / 2)));
        assert(pow2_small(bit_length(b) - 1) == 2 * pow2_small(bit_length(b / 2) - 1));
    } else {
        assert(bit_length(b / 2) == 0);
    }
}

/// The position of the most significant 1 bit of each byte, counting from
/// 1 (0 for the byte 0).
pub fn nonzero_count(b: u8) -> (r: i32)
    ensures
        r as int == bit_length(b as int),
        0 <= r <= 8,
{
    proof {
        lemma_pow2_small_values();
        lemma_bit_length_small(b as int, 8);
    }
    let mut v: u8 = b;
    let mut r: i32 = 0;
    while v > 0
        invariant
            0 <= r,
            bit_length(v as int) + r == bit_length(b as int),
            bit_length(b as int) <= 8,
        decreases v,
    {
        proof {
            lemma_bit_length_nonneg(v as int / 2);
        }
        v = v / 2;
        r += 1;
    }
    r
}

proof fn lemma_bit_length_nonneg(b: int)
    ensures
        bit_length(b) >= 0,
    decreases b,
{
    if b > 0 {
        lemma_bit_length_nonneg(b / 2);
    }
}

proof fn lemma_bit_length_small(b: int, k: int)
    requires
        0 <= k,
        b < pow2_small(k),
    ensures
        bit_length(b) <= k,
    decreases k,
{
    if b > 0 {
        if k == 0 {
            assert(pow2_small(0) == 1);
        } else {
            assert(pow2_small(k) == 2 * pow2_small(k - 1));
            lemma_bit_length_small(b / 2, k - 1);
        }
    }
}

proof fn lemma_pow2_small_mono(a: int, b: int)
    requires
        0 <= a <= b,
    ensures
        pow2_small(a) <= pow2_small(b),
        pow2_small(a) >= 1,
    decreases b,
{
    if b > a {
        lemma_pow2_small_mono(a, b - 1);
    } else if a > 0 {
        lemma_pow2_small_mono(a - 1, a - 1);
    }
}

/// The value of the `n` bits starting at bit `p`.
fn read_bits(data: &[u8], p: u64, n: u32) -> (r: u64)
    requires
        n <= 32,
        p + 32 <= u64::MAX,
        data@.len() <= 0x1000_0000_0000_0000,
    ensures
        r as int == stream_bits(data@, p as int, n as nat),
        r < 0x1_0000_0000,
{
    let mut v: u64 = 0;
    let mut k: u32 = 0;
    while k < n
        invariant
            k <= n <= 32,
            p + 32 <= u64::MAX,
            data@.len() <= 0x1000_0000_0000_0000,
            v as int == stream_bits(data@, p as int, k as nat),
            v < pow2_small(k as int),
        decreases n - k,
    {
        let bit = read_bit(data, p + k as u64);
        proof {
            lemma_pow2_small_mono(k as int, 32);
            reveal_with_fuel(pow2_small, 2);
            assert(pow2_small(32) == 0x1_0000_0000) by {
                reveal_with_fuel(pow2_small, 33);
            }
            assert(pow2_small(k + 1) == 2 * pow2_small(k as int));
        }
        v = v * 2 + bit as u64;
        k += 1;
    }
    proof {
        lemma_pow2_small_mono(n as int, 32);
        assert(pow2_small(32) == 0x1_0000_0000) by {
            reveal_with_fuel(pow2_small, 33);
        }
    }
    v
}

/// The first 1 bit at or after `p` within the data.
fn find_one(data: &[u8], p: u64) -> (r: Option<u64>)
    requires
        data@.len() <= 0x0100_0000_0000_0000,
    ensures
        r matches Some(q) ==> first_one(data@, p as int) == Some(q as int),
        r is None ==> first_one(data@, p as int) is None,
{
    let end: u64 = 8 * data.len() as u64;
    let mut q: u64 = p;
    while q < end
        invariant
            p <= q,
            end == 8 * data@.len(),
            data@.len() <= 0x0100_0000_0000_0000,
            first_one(data@, q as int) == first_one(data@, p as int),
        decreases end - q,
    {
        if read_bit(data, q) == 1 {
            return Some(q);
        }
        q += 1;
    }
    None
}

// ── Rice decompression ──

/// Parameters of the Rice code for 1-, 2- or 4-byte pixels.
#[derive(Debug, Clone, Copy, PartialEq, Eq)]
pub struct RiceParams {
    /// Bits of the code selector at the start of each block.
    pub fsbits: i32,
    /// The selector value that marks a block of raw differences.
    pub fsmax: i32,
    /// Bits of each raw difference.
    pub bbits: i32,
    /// Bytes of each pixel.
    pub bytes_per_val: usize,
}

impl RiceParams {
    /// The parameters for one of the three supported pixel sizes.
    pub open spec fn wf(self) -> bool {
        ||| (self.fsbits == 3 && self.fsmax == 6 && self.bbits == 8 && self.bytes_per_val == 1)
        ||| (self.fsbits == 4 && self.fsmax == 14 && self.bbits == 16 && self.bytes_per_val == 2)
        ||| (self.fsbits == 5 && self.fsmax == 25 && self.bbits == 32 && self.bytes_per_val == 4)
    }

    /// The Rice parameters for pixels of `rice_bytepix` bytes (1, 2 or 4).
    pub fn for_bytepix(rice_bytepix: usize) -> (r: Result<RiceParams>)
        ensures
            r is Ok <==> (rice_bytepix == 1 || rice_bytepix == 2 || rice_bytepix == 4),
            r matches Ok(p) ==> p.wf() && p.bytes_per_val == rice_bytepix,
            r matches Err(e) ==> e == Error::UnsupportedCompression("unsupported Rice bytepix"),
    {
        match rice_bytepix {
            1 => Ok(RiceParams { fsbits: 3, fsmax: 6, bbits: 8, bytes_per_val: 1 }),
            2 => Ok(RiceParams { fsbits: 4, fsmax: 14, bbits: 16, bytes_per_val: 2 }),
            4 => Ok(RiceParams { fsbits: 5, fsmax: 25, bbits: 32, bytes_per_val: 4 }),
            _ => Err(Error::UnsupportedCompression("unsupported Rice bytepix")),
        }
    }
}

/// The signed difference that a zigzag-coded value stands for.
pub open spec fn zigzag(d: u32) -> u32 {
    if d & 1 == 0 { d >> 1u32 } else { !(d >> 1u32) }
}

/// The signed difference whose zigzag code is `d`: `d / 2` for even `d`,
/// `-(d / 2) - 1` for odd `d`.
pub open spec fn zigzag_difference(d: int) -> int {
    if d % 2 == 0 { d / 2 } else { -(d / 2) - 1 }
}

/// The zigzag code of a signed difference `x`: `2x` for `x >= 0`, `-2x - 1`
/// below, so that small differences of either sign get small codes.
pub open spec fn zigzag_code(x: int) -> int {
    if x >= 0 { 2 * x } else { -2 * x - 1 }
}

/// `v` in 32-bit two's-complement arithmetic, for `v` within one turn of
/// the `i32` range.
pub open spec fn wrap_i32(v: int) -> int {
    if v > i32::MAX { v - 0x1_0000_0000 } else if v < i32::MIN { v + 0x1_0000_0000 } else { v }
}

/// A coded difference stands for its zigzag difference.
proof fn lemma_zigzag_as_i32(d: u32)
    ensures
        (zigzag(d) as i32) as int == zigzag_difference(d as int),
{
    let h = d >> 1u32;
    assert(d >> 1u32 == d / 2) by (bit_vector);
    assert((d & 1u32 == 0u32) == (d % 2 == 0)) by (bit_vector);
    assert(d >> 1u32 < 0x8000_0000u32) by (bit_vector);
    if d & 1u32 == 0u32 {
        assert(zigzag(d) == h);
    } else {
        assert(zigzag(d) == !h);
        assert((!h) as i32 == -(h as i32) - 1) by (bit_vector)
            requires h < 0x8000_0000u32;
    }
}

/// Rice decoding steps from pixel to pixel by the signed difference that
/// each code stands for: the pixel after `last` with code `d` is `last`
/// plus `d / 2` for even `d` and minus `d / 2 + 1` for odd `d`, in 32-bit
/// wrapping arithmetic.
pub proof fn lemma_next_pixel_adds_difference(d: u32, last: i32)
    ensures
        next_pixel(d, last) as int == wrap_i32(last as int + zigzag_difference(d as int)),
{
    lemma_zigzag_as_i32(d);
}

/// Decoding undoes coding: a difference `x` coded as `zigzag_code(x)` moves
/// the pixel after `last` by exactly `x` (32-bit wrapping), so coding and
/// decoding pair every 32-bit difference with one code.
pub proof fn lemma_next_pixel_inverts_code(x: int, last: i32)
    requires
        i32::MIN <= x <= i32::MAX,
    ensures
        0 <= zigzag_code(x) <= u32::MAX,
        next_pixel(zigzag_code(x) as u32, last) as int == wrap_i32(last as int + x),
{
    let c = zigzag_code(x);
    lemma_next_pixel_adds_difference(c as u32, last);
    if x >= 0 {
        assert(c % 2 == 0 && c / 2 == x);
    } else {
        assert(c % 2 == 1 && c / 2 == -x - 1);
    }
}

/// A run of raw differences gives one pixel per difference.
proof fn lemma_raw_run_len(data: Seq<u8>, p: int, count: nat, last: i32, bbits: nat)
    ensures
        raw_run(data, p, count, last, bbits).0.len() == count,
    decreases count,
{
    if count > 0 {
        let v = next_pixel(stream_bits(data, p, bbits) as u32, last);
        lemma_raw_run_len(data, p + bbits, (count - 1) as nat, v, bbits);
    }
}

/// A run of coded differences gives one pixel per difference, the last
/// pixel repeated where the data runs out.
proof fn lemma_coded_run_len(data: Seq<u8>, p: int, count: nat, last: i32, fs: nat)
    ensures
        coded_run(data, p, count, last, fs).0.len() == count,
    decreases count,
{
    if count > 0 {
        if let Some(q) = first_one(data, p) {
            let high = (q - p) as u32;
            let d = (high << (fs as u32)) | (stream_bits(data, q + 1, fs) as u32);
            let v = next_pixel(d, last);
            lemma_coded_run_len(data, q + 1 + fs, (count - 1) as nat, v, fs);
        }
    }
}

/// Decoding from pixel `idx` to `nx` block by block gives `nx - idx`
/// pixels.
proof fn lemma_rice_from_len(data: Seq<u8>, p: int, idx: int, nx: int, nblock: int, last: i32, prm: RiceParams)
    requires
        idx <= nx,
        nblock > 0,
    ensures
        rice_from(data, p, idx, nx, nblock, last, prm).len() == nx - idx,
    decreases nx - idx,
{
    if idx < nx {
        let imax = if idx + nblock < nx { idx + nblock } else { nx };
        let count = (imax - idx) as nat;
        let fs = stream_bits(data, p, prm.fsbits as nat) - 1;
        let p1 = p + prm.fsbits;
        if fs < 0 {
            lemma_rice_from_len(data, p1, imax, nx, nblock, last, prm);
        } else if fs == prm.fsmax {
            let (vals, p2, l2) = raw_run(data, p1, count, last, prm.bbits as nat);
            lemma_raw_run_len(data, p1, count, last, prm.bbits as nat);
            lemma_rice_from_len(data, p2, imax, nx, nblock, l2, prm);
        } else {
            let (vals, p2, l2, ex) = coded_run(data, p1, count, last, fs as nat);
            lemma_coded_run_len(data, p1, count, last, fs as nat);
            if !ex {
                lemma_rice_from_len(data, p2, imax, nx, nblock, l2, prm);
            }
        }
    }
}

/// Rice decoding fails exactly when the data is shorter than one raw
/// value, with `Rice data too short`; otherwise it gives `n` pixels.
pub proof fn lemma_rice_decompress_shape(data: Seq<u8>, n: nat, blocksize: nat, prm: RiceParams)
    requires
        blocksize > 0,
    ensures
        spec_rice_decompress(data, n, blocksize, prm) is Err <==> data.len() < prm.bytes_per_val,
        spec_rice_decompress(data, n, blocksize, prm) is Err ==> spec_rice_decompress(data, n, blocksize, prm)
            == Err::<Seq<i32>, Error>(Error::DecompressionError("Rice data too short")),
        spec_rice_decompress(data, n, blocksize, prm) matches Ok(v) ==> v.len() == n,
{
    if data.len() >= prm.bytes_per_val && n > 0 {
        lemma_rice_from_len(data, 8 * prm.bytes_per_val, 0, n as int, blocksize as int,
            rice_first_pixel(data, prm.bytes_per_val), prm);
    }
}

/// The pixel after `last` whose coded difference is `d`.
pub open spec fn next_pixel(d: u32, last: i32) -> i32 {
    (zigzag(d) as i32).wrapping_add(last)
}

/// `n` copies of `v`.
pub open spec fn repeat(v: i32, n: int) -> Seq<i32> {
    Seq::new(if n < 0 { 0 } else { n as nat }, |i: int| v)
}

/// Pixels whose differences are stored raw, `bbits` bits each: the pixels,
/// the bit position after them, and the last pixel.
pub open spec fn raw_run(data: Seq<u8>, p: int, count: nat, last: i32, bbits: nat) -> (Seq<i32>, int, i32)
    decreases count,
{
    if count == 0 {
        (Seq::empty(), p, last)
    } else {
        let v = next_pixel(stream_bits(data, p, bbits) as u32, last);
        let (rest, p2, l2) = raw_run(data, p + bbits, (count - 1) as nat, v, bbits);
        (seq![v] + rest, p2, l2)
    }
}

/// Pixels whose differences are Rice-coded with `fs` low bits: the pixels,
/// the bit position after them, the last pixel, and whether the data ran
/// out (the remaining pixels then repeat the last one).
pub open spec fn coded_run(data: Seq<u8>, p: int, count: nat, last: i32, fs: nat) -> (Seq<i32>, int, i32, bool)
    decreases count,
{
    if count == 0 {
        (Seq::empty(), p, last, false)
    } else {
        match first_one(data, p) {
            None => (repeat(last, count as int), p, last, true),
            Some(q) => {
                let high = (q - p) as u32;
                let d = (high << (fs as u32)) | (stream_bits(data, q + 1, fs) as u32);
                let v = next_pixel(d, last);
                let (rest, p2, l2, ex) = coded_run(data, q + 1 + fs, (count - 1) as nat, v, fs);
                (seq![v] + rest, p2, l2, ex)
            },
        }
    }
}

/// The pixels from index `idx` to `nx`, decoded block by block from bit `p`
/// on, after the pixel `last`.
pub open spec fn rice_from(data: Seq<u8>, p: int, idx: int, nx: int, nblock: int, last: i32, prm: RiceParams) -> Seq<i32>
    decreases nx - idx,
{
    if idx >= nx || nblock <= 0 {
        Seq::empty()
    } else {
        let imax = if idx + nblock < nx { idx + nblock } else { nx };
        let count = (imax - idx) as nat;
        let fs = stream_bits(data, p, prm.fsbits as nat) - 1;
        let p1 = p + prm.fsbits;
        if fs < 0 {
            repeat(last, count as int) + rice_from(data, p1, imax, nx, nblock, last, prm)
        } else if fs == prm.fsmax {
            let (vals, p2, l2) = raw_run(data, p1, count, last, prm.bbits as nat);
            vals + rice_from(data, p2, imax, nx, nblock, l2, prm)
        } else {
            let (vals, p2, l2, ex) = coded_run(data, p1, count, last, fs as nat);
            if ex {
                vals + repeat(l2, nx - imax)
            } else {
                vals + rice_from(data, p2, imax, nx, nblock, l2, prm)
            }
        }
    }
}

/// The first pixel, stored whole (big-endian, signed) at the start.
pub open spec fn rice_first_pixel(data: Seq<u8>, bpv: usize) -> i32 {
    to_signed(be_uint(data, bpv as nat), (8 * bpv) as nat) as i32
}

/// The pixels that `rice_decompress` decodes.
pub open spec fn spec_rice_decompress(data: Seq<u8>, n: nat, blocksize: nat, prm: RiceParams) -> core::result::Result<Seq<i32>, Error> {
    if data.len() < prm.bytes_per_val {
        Err(Error::DecompressionError("Rice data too short"))
    } else if n == 0 {
        Ok(Seq::empty())
    } else {
        Ok(rice_from(data, 8 * prm.bytes_per_val, 0, n as int, blocksize as int,
            rice_first_pixel(data, prm.bytes_per_val), prm))
    }
}

/// The pixel after `last` whose coded difference is `d`.
fn next_pixel_exec(d: u32, last: i32) -> (r: i32)
    ensures
        r == next_pixel(d, last),
{
    let z = if d & 1 == 0 { d >> 1u32 } else { !(d >> 1u32) };
    (z as i32).wrapping_add(last)
}

/// Decode `count` pixels whose differences are stored raw, `bbits` bits each,
/// from bit `p` on, appending them; returns the bit position after them and
/// the last pixel.
fn decode_raw_run(data: &[u8], p: u64, count: usize, last: i32, bbits: u32, out: &mut Vec<i32>) -> (r: (u64, i32))
    requires
        bbits == 8 || bbits == 16 || bbits == 32,
        data@.len() < 0x0100_0000_0000_0000,
        p <= 0x1000_0000_0000_0000,
        count <= 0x8000_0000,
    ensures
        final(out)@ == old(out)@ + raw_run(data@, p as int, count as nat, last, bbits as nat).0,
        r.0 == raw_run(data@, p as int, count as nat, last, bbits as nat).1,
        r.1 == raw_run(data@, p as int, count as nat, last, bbits as nat).2,
        r.0 <= p + 32 * count,
{
    let ghost out0 = out@;
    let mut q = p;
    let mut l = last;
    let mut k: usize = 0;
    while k < count
        invariant
            k <= count <= 0x8000_0000,
            bbits == 8 || bbits == 16 || bbits == 32,
            data@.len() < 0x0100_0000_0000_0000,
            p <= 0x1000_0000_0000_0000,
            q <= p + 32 * k,
            out@ + raw_run(data@, q as int, (count - k) as nat, l, bbits as nat).0
                == out0 + raw_run(data@, p as int, count as nat, last, bbits as nat).0,
            raw_run(data@, q as int, (count - k) as nat, l, bbits as nat).1
                == raw_run(data@, p as int, count as nat, last, bbits as nat).1,
            raw_run(data@, q as int, (count - k) as nat, l, bbits as nat).2
                == raw_run(data@, p as int, count as nat, last, bbits as nat).2,
        decreases count - k,
    {
        let d = read_bits(data, q, bbits);
        let v = next_pixel_exec(d as u32, l);
        proof {
            let rr = raw_run(data@, q as int, (count - k) as nat, l, bbits as nat);
            let r2 = raw_run(data@, q + bbits, (count - k - 1) as nat, v, bbits as nat);
            assert(rr.0 == seq![v] + r2.0);
            assert(out@.push(v) + r2.0 =~= out@ + rr.0);
        }
        out.push(v);
        l = v;
        q = q + bbits as u64;
        k += 1;
    }
    assert(out@ + Seq::<i32>::empty() =~= out@);
    (q, l)
}

/// Decode `count` pixels whose differences are Rice-coded with `fs` low
/// bits, from bit `p` on, appending them; returns the bit position after
/// them, the last pixel, and whether the data ran out (the pixels left in the
/// run then repeat the last one).
fn decode_coded_run(data: &[u8], p: u64, count: usize, last: i32, fs: u32, out: &mut Vec<i32>) -> (r: (u64, i32, bool))
    requires
        fs <= 30,
        data@.len() < 0x0100_0000_0000_0000,
        p <= 0x1000_0000_0000_0000,
    ensures
        final(out)@ == old(out)@ + coded_run(data@, p as int, count as nat, last, fs as nat).0,
        r.0 == coded_run(data@, p as int, count as nat, last, fs as nat).1,
        r.1 == coded_run(data@, p as int, count as nat, last, fs as nat).2,
        r.2 == coded_run(data@, p as int, count as nat, last, fs as nat).3,
        count > 0 && !r.2 ==> r.0 <= 8 * data@.len() + 31,
        count == 0 ==> r.0 == p,
        r.2 ==> r.0 <= p || r.0 <= 8 * data@.len() + 31,
{
    let ghost out0 = out@;
    let mut q = p;
    let mut l = last;
    let mut k: usize = 0;
    while k < count
        invariant
            k <= count,
            out0 == old(out)@,
            fs <= 30,
            data@.len() < 0x0100_0000_0000_0000,
            p <= 0x1000_0000_0000_0000,
            k == 0 ==> q == p,
            k > 0 ==> q <= 8 * data@.len() + 31,
            out@ + coded_run(data@, q as int, (count - k) as nat, l, fs as nat).0
                == out0 + coded_run(data@, p as int, count as nat, last, fs as nat).0,
            coded_run(data@, q as int, (count - k) as nat, l, fs as nat).1
                == coded_run(data@, p as int, count as nat, last, fs as nat).1,
            coded_run(data@, q as int, (count - k) as nat, l, fs as nat).2
                == coded_run(data@, p as int, count as nat, last, fs as nat).2,
            coded_run(data@, q as int, (count - k) as nat, l, fs as nat).3
                == coded_run(data@, p as int, count as nat, last, fs as nat).3,
        decreases count - k,
    {
        match find_one(data, q) {
            None => {
                proof {
                    let cr = coded_run(data@, q as int, (count - k) as nat, l, fs as nat);
                    assert(cr == (repeat(l, (count - k) as int), q as int, l, true));
                }
                let ghost before = out@;
                let rest = count - k;
                assert(before + repeat(l, rest as int)
                    == out0 + coded_run(data@, p as int, count as nat, last, fs as nat).0);
                let mut j: usize = 0;
                while j < rest
                    invariant
                        j <= rest,
                        out@ == before + repeat(l, j as int),
                    decreases rest - j,
                {
                    out.push(l);
                    j += 1;
                    assert(out@ =~= before + repeat(l, j as int));
                }
                return (q, l, true);
            },
            Some(one) => {
                proof {
                    lemma_first_one(data@, q as int);
                }
                let high = (one - q) as u32;
                let low = read_bits(data, one + 1, fs);
                let d = (high << fs) | (low as u32);
                let v = next_pixel_exec(d, l);
                proof {
                    let cr = coded_run(data@, q as int, (count - k) as nat, l, fs as nat);
                    let c2 = coded_run(data@, one + 1 + fs, (count - k - 1) as nat, v, fs as nat);
                    assert(cr.0 == seq![v] + c2.0);
                    assert(out@.push(v) + c2.0 =~= out@ + cr.0);
                }
                out.push(v);
                l = v;
                q = one + 1 + fs as u64;
                k += 1;
            },
        }
    }
    assert(out@ + Seq::<i32>::empty() =~= out@);
    (q, l, false)
}

/// Decompress Rice-encoded tile data into i32 pixel values.
///
/// The first pixel is stored whole; each following block of `blocksize`
/// pixels starts with a code selector and holds the differences from the
/// previous pixel, Rice-coded, raw, or (in low-entropy blocks) all zero.
/// Bits past the end of the data read as 0; when a Rice code runs past the
/// end, the remaining pixels repeat the last one decoded.
#[verifier::rlimit(60)]
pub fn rice_decompress(compressed: &[u8], num_pixels: usize, blocksize: usize, params: &RiceParams) -> (r: Result<Vec<i32>>)
    requires
        params.wf(),
        compressed@.len() < 0x0100_0000_0000_0000,
        num_pixels <= i32::MAX,
        0 < blocksize <= i32::MAX,
    ensures
        r matches Ok(v) ==> spec_rice_decompress(compressed@, num_pixels as nat, blocksize as nat, *params)
            == Ok::<Seq<i32>, Error>(v@),
        r matches Err(e) ==> spec_rice_decompress(compressed@, num_pixels as nat, blocksize as nat, *params)
            == Err::<Seq<i32>, Error>(e),
{
    let prm = *params;
    if compressed.len() < prm.bytes_per_val {
        return Err(Error::DecompressionError("Rice data too short"));
    }
    let first: i32 = if prm.bytes_per_val == 1 {
        let u = compressed[0];
        proof {
            reveal_with_fuel(be_uint, 2);
        }
        if u >= 128 { (u as i32) - 256 } else { u as i32 }
    } else if prm.bytes_per_val == 2 {
        crate::endian::read_i16_be(compressed) as i32
    } else {
        read_i32_be(compressed)
    };
    assert(first == rice_first_pixel(compressed@, prm.bytes_per_val));
    let mut out: Vec<i32> = Vec::new();
    if num_pixels == 0 {
        return Ok(out);
    }
    let ghost whole = rice_from(compressed@, 8 * prm.bytes_per_val, 0, num_pixels as int, blocksize as int, first, prm);
    let ghost len8 = 8 * compressed@.len();
    let mut p: u64 = 8 * prm.bytes_per_val as u64;
    let mut last: i32 = first;
    let mut idx: usize = 0;
    while idx < num_pixels
        invariant
            prm.wf(),
            prm == *params,
            compressed@.len() < 0x0100_0000_0000_0000,
            len8 == 8 * compressed@.len(),
            num_pixels <= i32::MAX,
            0 < blocksize <= i32::MAX,
            idx <= num_pixels,
            p <= len8 + 64 * idx + 64,
            out@ + rice_from(compressed@, p as int, idx as int, num_pixels as int, blocksize as int, last, prm) == whole,
            spec_rice_decompress(compressed@, num_pixels as nat, blocksize as nat, *params) == Ok::<Seq<i32>, Error>(whole),
        decreases num_pixels - idx,
    {
        let imax: usize = if blocksize < num_pixels - idx { idx + blocksize } else { num_pixels };
        let count = imax - idx;
        let ghost p0 = p as int;
        let ghost out0 = out@;
        let ghost last0 = last;
        let fsv = read_bits(compressed, p, prm.fsbits as u32);
        proof {
            lemma_stream_bits_range(compressed@, p as int, prm.fsbits as nat);
            lemma_pow2_small_values();
        }
        p = p + prm.fsbits as u64;
        let fs: i32 = fsv as i32 - 1;
        if fs < 0 {
            let mut j: usize = 0;
            while j < count
                invariant
                    j <= count,
                    out@ == out0 + repeat(last, j as int),
                decreases count - j,
            {
                out.push(last);
                j += 1;
                assert(out@ =~= out0 + repeat(last, j as int));
            }
            idx = imax;
            proof {
                assert(out@ + rice_from(compressed@, p as int, idx as int, num_pixels as int, blocksize as int, last, prm)
                    =~= out0 + rice_from(compressed@, p0, idx as int - count, num_pixels as int, blocksize as int, last, prm));
            }
        } else if fs == prm.fsmax {
            let (q, l) = decode_raw_run(compressed, p, count, last, prm.bbits as u32, &mut out);
            p = q;
            last = l;
            idx = imax;
            proof {
                assert(out@ + rice_from(compressed@, p as int, idx as int, num_pixels as int, blocksize as int, last, prm)
                    =~= out0 + rice_from(compressed@, p0, idx as int - count, num_pixels as int, blocksize as int, last0, prm));
            }
        } else {
            let (q, l, exhausted) = decode_coded_run(compressed, p, count, last, fs as u32, &mut out);
            if exhausted {
                proof {
                    assert(out@ + repeat(l, num_pixels - imax as int)
                        =~= out0 + rice_from(compressed@, p0, idx as int, num_pixels as int, blocksize as int, last0, prm));
                }
                let ghost before = out@;
                let rest = num_pixels - imax;
                let mut j: usize = 0;
                while j < rest
                    invariant
                        j <= rest,
                        out@ == before + repeat(l, j as int),
                    decreases rest - j,
                {
                    out.push(l);
                    j += 1;
                    assert(out@ =~= before + repeat(l, j as int));
                }
                return Ok(out);
            }
            p = q;
            last = l;
            idx = imax;
            proof {
                assert(out@ + rice_from(compressed@, p as int, idx as int, num_pixels as int, blocksize as int, last, prm)
                    =~= out0 + rice_from(compressed@, p0, idx as int - count, num_pixels as int, blocksize as int, last0, prm));
            }
        }
    }
    Ok(out)
}

// ── P-descriptors and heap access ──

/// Read a 32-bit P-descriptor: (element_count, heap_byte_offset), each
/// a big-endian 32-bit value read as unsigned.
pub fn read_p_descriptor(data: &[u8]) -> (r: (usize, usize))
    requires
        data@.len() >= 8,
    ensures
        r.0 as int == (be_uint(data@, 4) as u32) as usize,
        r.1 as int == (be_uint(data@.subrange(4, data@.len() as int), 4) as u32) as usize,
{
    let count = crate::endian::read_u32_be(data);
    let rest = &data[4..data.len()];
    let offset = crate::endian::read_u32_be(rest);
    (count as usize, offset as usize)
}

/// The compressed bytes of a tile, from the heap: the slice from the tile's
/// start to the end of the data, and the tile's byte count.
pub open spec fn spec_tile_bytes(
    fits_data: Seq<u8>,
    data_start: int,
    naxis1: int,
    naxis2: int,
    row: int,
    col_offset: int,
) -> core::result::Result<(int, int), Error> {
    let desc_pos = data_start + row * naxis1 + col_offset;
    if desc_pos + 8 > fits_data.len() {
        Err(Error::UnexpectedEof)
    } else {
        let d = fits_data.subrange(desc_pos, fits_data.len() as int);
        let count = ((be_uint(d, 4) as u32) as usize) as int;
        let heap_offset = ((be_uint(d.subrange(4, d.len() as int), 4) as u32) as usize) as int;
        let tile_start = data_start + naxis1 * naxis2 + heap_offset;
        if tile_start + count > fits_data.len() {
            Err(Error::UnexpectedEof)
        } else {
            Ok((tile_start, count))
        }
    }
}

/// Extract compressed tile bytes from the heap for a given row.
///
/// Returns `(data_slice, count)` where `count` is the number of compressed
/// bytes.  For Rice decompression the slice extends beyond `count` so that
/// the bit-stream reader can read on past the tile, as cfitsio does.
pub fn extract_tile_bytes(
    fits_data: &[u8],
    data_start: usize,
    naxis1: usize,
    naxis2: usize,
    row: usize,
    col_offset: usize,
) -> (r: Result<(&[u8], usize)>)
    requires
        data_start + row * naxis1 + col_offset + 8 <= usize::MAX,
        data_start + naxis1 * naxis2 + 0x2_0000_0000 <= usize::MAX,
    ensures
        r matches Ok((s, n)) ==> spec_tile_bytes(fits_data@, data_start as int, naxis1 as int, naxis2 as int, row as int, col_offset as int)
            matches Ok((st, cnt)) && s@ == fits_data@.subrange(st, fits_data@.len() as int) && n == cnt,
        r matches Err(e) ==> spec_tile_bytes(fits_data@, data_start as int, naxis1 as int, naxis2 as int, row as int, col_offset as int)
            == Err::<(int, int), Error>(e),
{
    proof {
        assert(0 <= row * naxis1) by (nonlinear_arith);
        assert(0 <= naxis1 * naxis2) by (nonlinear_arith);
    }
    let desc_pos = data_start + row * naxis1 + col_offset;
    if desc_pos + 8 > fits_data.len() {
        return Err(Error::UnexpectedEof);
    }
    let d = &fits_data[desc_pos..fits_data.len()];
    let (count, heap_offset) = read_p_descriptor(d);
    proof {
        assert(count as int <= u32::MAX);
        assert(heap_offset as int <= u32::MAX);
    }
    let heap_start = data_start + naxis1 * naxis2;
    let tile_start = heap_start + heap_offset;
    if count > fits_data.len() || tile_start > fits_data.len() - count {
        return Err(Error::UnexpectedEof);
    }
    Ok((&fits_data[tile_start..fits_data.len()], count))
}

// ── GZIP decompression ──

/// The output of inflating a raw deflate stream, or `None` when the stream
/// is not valid deflate data.
pub uninterp spec fn inflated(input: Seq<u8>) -> Option<Seq<u8>>;

/// The output of inflating a zlib-wrapped deflate stream, or `None` when the
/// stream is not valid zlib data.
pub uninterp spec fn zlib_inflated(input: Seq<u8>) -> Option<Seq<u8>>;

/// The error type of `miniz_oxide`'s inflate functions.
#[verifier::external_type_specification]
#[verifier::external_body]
pub struct ExDecompressError(miniz_oxide::inflate::DecompressError);

/// `miniz_oxide::inflate::decompress_to_vec`: inflates a raw deflate stream
/// with no output limit. What it returns is a function of the input alone,
/// named `inflated`.
#[verifier::external_body]
fn inflate_raw(input: &[u8]) -> (r: core::result::Result<Vec<u8>, miniz_oxide::inflate::DecompressError>)
    ensures
        r is Ok <==> inflated(input@) is Some,
        r matches Ok(v) ==> inflated(input@) == Some(v@),
{
    miniz_oxide::inflate::decompress_to_vec(input)
}

/// `miniz_oxide::inflate::decompress_to_vec_zlib`: inflates a zlib-wrapped
/// deflate stream with no output limit. What it returns is a function of the
/// input alone, named `zlib_inflated`.
#[verifier::external_body]
fn inflate_zlib(input: &[u8]) -> (r: core::result::Result<Vec<u8>, miniz_oxide::inflate::DecompressError>)
    ensures
        r is Ok <==> zlib_inflated(input@) is Some,
        r matches Ok(v) ==> zlib_inflated(input@) == Some(v@),
{
    miniz_oxide::inflate::decompress_to_vec_zlib(input)
}

/// The index just past the zero byte that ends the string starting at `pos`
/// (one past the end of the data when there is none).
pub open spec fn skip_zero_terminated(data: Seq<u8>, pos: int) -> int
    decreases data.len() - pos,
{
    if pos < 0 || pos >= data.len() {
        pos + 1
    } else if data[pos] == 0 {
        pos + 1
    } else {
        skip_zero_terminated(data, pos + 1)
    }
}

/// Where the deflate payload of a gzip member starts.
pub open spec fn gzip_payload_start(data: Seq<u8>) -> core::result::Result<int, Error> {
    if data.len() < 18 || data[0] != 0x1f || data[1] != 0x8b || data[2] != 0x08 {
        Err(Error::DecompressionError("invalid gzip header"))
    } else {
        let flg = data[3];
        let p1: int = if flg & 0x04 != 0 { 12 + data[10] as int + 256 * data[11] as int } else { 10 };
        let p2: int = if flg & 0x08 != 0 { skip_zero_terminated(data, p1) } else { p1 };
        let p3: int = if flg & 0x10 != 0 { skip_zero_terminated(data, p2) } else { p2 };
        let p4: int = if flg & 0x02 != 0 { p3 + 2 } else { p3 };
        if p4 >= data.len() || data.len() < p4 + 8 {
            Err(Error::DecompressionError("truncated gzip data"))
        } else {
            Ok(p4)
        }
    }
}

/// The index just past the zero byte that ends the string starting at `pos`.
fn skip_zero_terminated_exec(data: &[u8], pos: usize) -> (r: usize)
    requires
        pos <= data@.len(),
        data@.len() < usize::MAX,
    ensures
        r == skip_zero_terminated(data@, pos as int),
        r <= data@.len() + 1,
{
    let mut p = pos;
    while p < data.len() && data[p] != 0
        invariant
            pos <= p <= data@.len(),
            data@.len() < usize::MAX,
            skip_zero_terminated(data@, p as int) == skip_zero_terminated(data@, pos as int),
        decreases data@.len() - p,
    {
        p += 1;
    }
    p + 1
}

/// Strip the gzip header and trailer, returning the raw deflate payload.
pub fn strip_gzip_header(data: &[u8]) -> (r: Result<&[u8]>)
    requires
        data@.len() + 0x30000 < usize::MAX,
    ensures
        r matches Ok(s) ==> gzip_payload_start(data@) matches Ok(p)
            && s@ == data@.subrange(p, data@.len() - 8),
        r matches Err(e) ==> gzip_payload_start(data@) == Err::<int, Error>(e),
{
    if data.len() < 18 || data[0] != 0x1f || data[1] != 0x8b || data[2] != 0x08 {
        return Err(Error::DecompressionError("invalid gzip header"));
    }
    let flg = data[3];
    let mut pos: usize = 10;
    if flg & 0x04 != 0 {
        let xlen = data[10] as usize + 256 * (data[11] as usize);
        pos = pos + 2 + xlen;
    }
    if flg & 0x08 != 0 && pos <= data.len() {
        pos = skip_zero_terminated_exec(data, pos);
    } else if flg & 0x08 != 0 {
        pos = pos + 1;
    }
    if flg & 0x10 != 0 && pos <= data.len() {
        pos = skip_zero_terminated_exec(data, pos);
    } else if flg & 0x10 != 0 {
        pos = pos + 1;
    }
    if flg & 0x02 != 0 {
        pos += 2;
    }
    if pos >= data.len() || data.len() < pos + 8 {
        return Err(Error::DecompressionError("truncated gzip data"));
    }
    Ok(&data[pos..data.len() - 8])
}

/// What `gzip_decompress` returns: gzip members are stripped and inflated;
/// other data is inflated as zlib, and failing that, as raw deflate.
pub open spec fn spec_gzip_decompress(c: Seq<u8>) -> core::result::Result<Seq<u8>, Error> {
    if c.len() >= 2 && c[0] == 0x1f && c[1] == 0x8b {
        match gzip_payload_start(c) {
            Err(e) => Err(e),
            Ok(p) => match inflated(c.subrange(p, c.len() - 8)) {
                Some(v) => Ok(v),
                None => Err(Error::DecompressionError("gzip inflate failed")),
            },
        }
    } else {
        match zlib_inflated(c) {
            Some(v) => Ok(v),
            None => match inflated(c) {
                Some(v) => Ok(v),
                None => Err(Error::DecompressionError("zlib/deflate inflate failed")),
            },
        }
    }
}

/// Decompress GZIP_1 compressed tile data: a gzip member, a zlib stream, or
/// a raw deflate stream.
pub fn gzip_decompress(compressed: &[u8]) -> (r: Result<Vec<u8>>)
    requires
        compressed@.len() + 0x30000 < usize::MAX,
    ensures
        r matches Ok(v) ==> spec_gzip_decompress(compressed@) == Ok::<Seq<u8>, Error>(v@),
        r matches Err(e) ==> spec_gzip_decompress(compressed@) == Err::<Seq<u8>, Error>(e),
{
    if compressed.len() >= 2 && compressed[0] == 0x1f && compressed[1] == 0x8b {
        let payload = match strip_gzip_header(compressed) {
            Ok(p) => p,
            Err(e) => return Err(e),
        };
        return match inflate_raw(payload) {
            Ok(v) => Ok(v),
            Err(_) => Err(Error::DecompressionError("gzip inflate failed")),
        };
    }
    match inflate_zlib(compressed) {
        Ok(v) => Ok(v),
        Err(_) => match inflate_raw(compressed) {
            Ok(v) => Ok(v),
            Err(_) => Err(Error::DecompressionError("zlib/deflate inflate failed")),
        },
    }
}

/// Big-endian signed values of 2 bytes each, read from the whole
/// 2-byte chunks of the data (a shorter tail is ignored).
pub fn bytes_to_i16(data: &[u8]) -> (r: Vec<i16>)
    ensures
        r@.len() == data@.len() / 2,
        forall|i: int| 0 <= i < r@.len() ==> #[trigger] r@[i] as int
            == to_signed(be_uint(data@.subrange(2 * i, 2 * i + 2), 2), 16),
{
    let n = data.len() / 2;
    assert(data@.len() == data.len());
    let mut out: Vec<i16> = Vec::new();
    let mut i: usize = 0;
    while i < n
        invariant
            n == data@.len() / 2,
            n == data.len() / 2,
            i <= n,
            out@.len() == i,
            forall|j: int| 0 <= j < i ==> #[trigger] out@[j] as int
                == to_signed(be_uint(data@.subrange(2 * j, 2 * j + 2), 2), 16),
        decreases n - i,
    {
        proof {
            assert(2 * i + 2 <= data.len()) by (nonlinear_arith)
                requires i < n, n == data.len() / 2;
        }
        let chunk = &data[2 * i..2 * i + 2];
        out.push(crate::endian::read_i16_be(chunk));
        i += 1;
    }
    out
}

/// Big-endian signed values of 4 bytes each, read from the whole
/// 4-byte chunks of the data (a shorter tail is ignored).
pub fn bytes_to_i32(data: &[u8]) -> (r: Vec<i32>)
    ensures
        r@.len() == data@.len() / 4,
        forall|i: int| 0 <= i < r@.len() ==> #[trigger] r@[i] as int
            == to_signed(be_uint(data@.subrange(4 * i, 4 * i + 4), 4), 32),
{
    let n = data.len() / 4;
    assert(data@.len() == data.len());
    let mut out: Vec<i32> = Vec::new();
    let mut i: usize = 0;
    while i < n
        invariant
            n == data@.len() / 4,
            n == data.len() / 4,
            i <= n,
            out@.len() == i,
            forall|j: int| 0 <= j < i ==> #[trigger] out@[j] as int
                == to_signed(be_uint(data@.subrange(4 * j, 4 * j + 4), 4), 32),
        decreases n - i,
    {
        proof {
            assert(4 * i + 4 <= data.len()) by (nonlinear_arith)
                requires i < n, n == data.len() / 4;
        }
        let chunk = &data[4 * i..4 * i + 4];
        out.push(crate::endian::read_i32_be(chunk));
        i += 1;
    }
    out
}

/// Big-endian signed values of 8 bytes each, read from the whole
/// 8-byte chunks of the data (a shorter tail is ignored).
pub fn bytes_to_i64(data: &[u8]) -> (r: Vec<i64>)
    ensures
        r@.len() == data@.len() / 8,
        forall|i: int| 0 <= i < r@.len() ==> #[trigger] r@[i] as int
            == to_signed(be_uint(data@.subrange(8 * i, 8 * i + 8), 8), 64),
{
    let n = data.len() / 8;
    assert(data@.len() == data.len());
    let mut out: Vec<i64> = Vec::new();
    let mut i: usize = 0;
    while i < n
        invariant
            n == data@.len() / 8,
            n == data.len() / 8,
            i <= n,
            out@.len() == i,
            forall|j: int| 0 <= j < i ==> #[trigger] out@[j] as int
                == to_signed(be_uint(data@.subrange(8 * j, 8 * j + 8), 8), 64),
        decreases n - i,
    {
        proof {
            assert(8 * i + 8 <= data.len()) by (nonlinear_arith)
                requires i < n, n == data.len() / 8;
        }
        let chunk = &data[8 * i..8 * i + 8];
        out.push(crate::endian::read_i64_be(chunk));
        i += 1;
    }
    out
}


/// Big-endian 4-byte values, as the bit patterns of `f32`s, read from the
/// whole 4-byte chunks of the data (a shorter tail is ignored).
pub fn bytes_to_f32(data: &[u8]) -> (r: Vec<u32>)
    ensures
        r@.len() == data@.len() / 4,
        forall|i: int| 0 <= i < r@.len() ==> #[trigger] r@[i] as int == be_uint(data@.subrange(4 * i, 4 * i + 4), 4),
{
    let n = data.len() / 4;
    assert(data@.len() == data.len());
    let mut out: Vec<u32> = Vec::new();
    let mut i: usize = 0;
    while i < n
        invariant
            n == data@.len() / 4,
            n == data.len() / 4,
            i <= n,
            out@.len() == i,
            forall|j: int| 0 <= j < i ==> #[trigger] out@[j] as int == be_uint(data@.subrange(4 * j, 4 * j + 4), 4),
        decreases n - i,
    {
        proof {
            assert(4 * i + 4 <= data@.len()) by (nonlinear_arith)
                requires i < n, n == data@.len() / 4;
        }
        let chunk = &data[4 * i..4 * i + 4];
        out.push(crate::endian::read_u32_be(chunk));
        i += 1;
    }
    out
}

/// Big-endian 8-byte values, as the bit patterns of `f64`s, read from the
/// whole 8-byte chunks of the data (a shorter tail is ignored).
pub fn bytes_to_f64(data: &[u8]) -> (r: Vec<u64>)
    ensures
        r@.len() == data@.len() / 8,
        forall|i: int| 0 <= i < r@.len() ==> #[trigger] r@[i] as int == be_uint(data@.subrange(8 * i, 8 * i + 8), 8),
{
    let n = data.len() / 8;
    assert(data@.len() == data.len());
    let mut out: Vec<u64> = Vec::new();
    let mut i: usize = 0;
    while i < n
        invariant
            n == data@.len() / 8,
            n == data.len() / 8,
            i <= n,
            out@.len() == i,
            forall|j: int| 0 <= j < i ==> #[trigger] out@[j] as int == be_uint(data@.subrange(8 * j, 8 * j + 8), 8),
        decreases n - i,
    {
        proof {
            assert(8 * i + 8 <= data@.len()) by (nonlinear_arith)
                requires i < n, n == data@.len() / 8;
        }
        let chunk = &data[8 * i..8 * i + 8];
        out.push(crate::endian::read_u64_be(chunk));
        i += 1;
    }
    out
}

// ── Tile geometry ──

/// The tile grid of a compressed image: how `ZTILEn` tiles the `ZNAXISn` image.
///
/// Tiles are stored one per binary-table row in raster order, fastest axis
/// first. A tile is a *rectangle* of the image, so reassembly is a scatter,
/// not an append: only when `ZTILE1 == ZNAXIS1` does a tile span whole image
/// rows and appending happen to give the right answer.
pub struct TileGrid {
    /// Image dimensions (`ZNAXISn`), fastest axis first.
    pub dims: Vec<usize>,
    /// Tile dimensions (`ZTILEn`), fastest axis first.
    pub tile: Vec<usize>,
    /// Number of tiles along each axis.
    pub counts: Vec<usize>,
}

/// `a` divided by `b`, rounded up.
pub open spec fn ceil_div(a: int, b: int) -> int {
    (a + b - 1) / b
}

/// The tile length along axis `i`: `ZTILEn` when given and positive (at
/// most the axis), else the whole axis.
pub open spec fn norm_tile(dims: Seq<usize>, tile: Seq<usize>, i: int) -> usize {
    if i < tile.len() && tile[i] > 0 {
        if tile[i] < dims[i] { tile[i] } else { dims[i] }
    } else {
        dims[i]
    }
}

/// The digits of `n` in the mixed radix `counts`, least significant first.
pub open spec fn radix_digits(counts: Seq<usize>, n: int) -> Seq<int>
    decreases counts.len(),
{
    if counts.len() == 0 {
        Seq::empty()
    } else {
        seq![n % counts[0] as int] + radix_digits(counts.drop_first(), n / counts[0] as int)
    }
}

/// The content of a [`TileGrid`].
pub struct GridModel {
    pub dims: Seq<usize>,
    pub tile: Seq<usize>,
    pub counts: Seq<usize>,
}

impl View for TileGrid {
    type V = GridModel;

    open spec fn view(&self) -> GridModel {
        GridModel { dims: self.dims@, tile: self.tile@, counts: self.counts@ }
    }
}

/// The grid that an image of axes `dims` and tiles `tile` has.
pub open spec fn grid_model(dims: Seq<usize>, tile: Seq<usize>) -> GridModel {
    GridModel {
        dims,
        tile: Seq::new(dims.len(), |i: int| norm_tile(dims, tile, i)),
        counts: Seq::new(dims.len(), |i: int| ceil_div(dims[i] as int, norm_tile(dims, tile, i) as int) as usize),
    }
}

impl GridModel {
    /// The grid is that of an image of positive axes whose product fits in a
    /// `usize`.
    pub open spec fn wf(self) -> bool {
        &&& self.dims.len() == self.tile.len() == self.counts.len()
        &&& prefix_products_fit(1, self.dims)
        &&& forall|i: int| 0 <= i < self.dims.len() ==> #[trigger] self.dims[i] > 0
            && 1 <= self.tile[i] <= self.dims[i]
            && self.counts[i] == ceil_div(self.dims[i] as int, self.tile[i] as int)
    }

    /// Total number of tiles in the grid.
    pub open spec fn spec_len(self) -> int {
        product(self.counts)
    }

    /// Grid coordinate of tile `index`, fastest axis first.
    pub open spec fn spec_coord(self, index: int) -> Seq<int> {
        radix_digits(self.counts, index)
    }

    /// Extent of tile `index` along each axis: edge tiles are clipped to the
    /// image.
    pub open spec fn spec_extent(self, index: int) -> Seq<usize> {
        Seq::new(self.dims.len(), |ax: int| {
            let start = self.spec_coord(index)[ax] * self.tile[ax];
            let left = if self.dims[ax] >= start { self.dims[ax] - start } else { 0 };
            (if self.tile[ax] <= left { self.tile[ax] as int } else { left }) as usize
        })
    }

    /// Where row `r` of tile `index` (its pixels along the first axis) lies
    /// in the image: the tile's origin plus the row's place among the
    /// higher axes.
    pub open spec fn row_position(self, index: int, r: int) -> Seq<int> {
        let h = radix_digits(self.spec_extent(index).subrange(1, self.dims.len() as int), r);
        Seq::new(self.dims.len(), |ax: int|
            self.spec_coord(index)[ax] * self.tile[ax] + if ax == 0 { 0 } else { h[ax - 1] })
    }

    /// The flat image index where row `r` of tile `index` starts.
    pub open spec fn row_offset(self, index: int, r: int) -> int {
        weighted_sum(self.row_position(index, r), self.dims, self.dims.len() as int)
    }

    /// `dst` after copying row `r` of the tile's pixels `src` into it.
    pub open spec fn blit_row<T>(self, index: int, src: Seq<T>, dst: Seq<T>, r: int) -> Seq<T> {
        let e0 = self.spec_extent(index)[0] as int;
        let run = if e0 <= src.len() { e0 } else { src.len() as int };
        let src_off = r * e0;
        let off = self.row_offset(index, r);
        let left = if dst.len() >= off { dst.len() - off } else { 0 };
        let avail = src.len() - src_off;
        let n = if run <= avail { if run <= left { run } else { left } } else { if avail <= left { avail } else { left } };
        if src_off >= src.len() || n <= 0 {
            dst
        } else {
            dst.subrange(0, off) + src.subrange(src_off, src_off + n) + dst.subrange(off + n, dst.len() as int)
        }
    }

    /// `dst` after copying rows `0..k` of the tile's pixels `src` into it.
    pub open spec fn blit_rows<T>(self, index: int, src: Seq<T>, dst: Seq<T>, k: nat) -> Seq<T>
        decreases k,
    {
        if k == 0 {
            dst
        } else {
            self.blit_row(index, src, self.blit_rows(index, src, dst, (k - 1) as nat), k - 1)
        }
    }

    /// `dst` after scattering the pixels `src` of tile `index` into it.
    pub open spec fn spec_blit<T>(self, index: int, src: Seq<T>, dst: Seq<T>) -> Seq<T> {
        let e = self.spec_extent(index);
        if e[0] == 0 || src.len() == 0 {
            dst
        } else {
            self.blit_rows(index, src, dst, product(e.subrange(1, e.len() as int)) as nat)
        }
    }
}

impl TileGrid {
    /// The grid for an image of axes `dims` cut into tiles `tile`.
    pub fn new(dims: &[usize], tile: &[usize]) -> (r: Self)
        requires
            prefix_products_fit(1, dims@),
            forall|i: int| 0 <= i < dims@.len() ==> #[trigger] dims@[i] > 0,
        ensures
            r@.wf(),
            r@ == grid_model(dims@, tile@),
    {
        let mut t: Vec<usize> = Vec::new();
        let mut c: Vec<usize> = Vec::new();
        let mut i: usize = 0;
        while i < dims.len()
            invariant
                i <= dims@.len(),
                t@.len() == i,
                c@.len() == i,
                forall|j: int| 0 <= j < dims@.len() ==> #[trigger] dims@[j] > 0,
                forall|j: int| 0 <= j < i ==> #[trigger] t@[j] == norm_tile(dims@, tile@, j)
                    && 1 <= t@[j] <= dims@[j]
                    && c@[j] == ceil_div(dims@[j] as int, t@[j] as int),
            decreases dims@.len() - i,
        {
            let d = dims[i];
            let ti: usize = if i < tile.len() && tile[i] > 0 {
                if tile[i] < d { tile[i] } else { d }
            } else {
                d
            };
            proof {
                assert(d % ti != 0 ==> d / ti < d) by (nonlinear_arith)
                    requires ti > 0, d > 0;
            }
            let ci = d / ti + if d % ti == 0 { 0 } else { 1 };
            proof {
                assert(ci == ceil_div(d as int, ti as int)) by (nonlinear_arith)
                    requires ci == d / ti + if d % ti == 0 { 0int } else { 1int }, ti > 0;
            }
            t.push(ti);
            c.push(ci);
            i += 1;
        }
        let mut dv: Vec<usize> = Vec::new();
        let mut j: usize = 0;
        while j < dims.len()
            invariant
                j <= dims@.len(),
                dv@ == dims@.subrange(0, j as int),
            decreases dims@.len() - j,
        {
            dv.push(dims[j]);
            j += 1;
            assert(dv@ =~= dims@.subrange(0, j as int));
        }
        assert(dims@.subrange(0, dims@.len() as int) =~= dims@);
        let g = TileGrid { dims: dv, tile: t, counts: c };
        assert(g@.tile =~= grid_model(dims@, tile@).tile);
        assert forall|j: int| 0 <= j < dims@.len() implies #[trigger] g@.counts[j] == grid_model(dims@, tile@).counts[j] by {
            assert(dims@[j] > 0);
            lemma_ceil_div(dims@[j] as int, t@[j] as int);
        }
        assert(g@.counts =~= grid_model(dims@, tile@).counts);
        g
    }

}

/// `xs[0] * stride(0) + ... + xs[k-1] * stride(k-1)`, with the strides of
/// an image of axes `dims`.
pub open spec fn weighted_sum(xs: Seq<int>, dims: Seq<usize>, k: int) -> int
    decreases k,
{
    if k <= 0 {
        0
    } else {
        weighted_sum(xs, dims, k - 1) + xs[k - 1] * axis_stride(dims, k - 1)
    }
}

/// A position inside the image has a flat index below the image's size.
proof fn lemma_weighted_bound(xs: Seq<int>, dims: Seq<usize>, k: int)
    requires
        0 <= k <= dims.len(),
        forall|ax: int| 0 <= ax < k ==> 0 <= #[trigger] xs[ax] < dims[ax],
    ensures
        0 <= weighted_sum(xs, dims, k) < axis_stride(dims, k),
    decreases k,
{
    if k == 0 {
        assert(dims.subrange(0, 0) =~= Seq::<usize>::empty());
    } else {
        lemma_weighted_bound(xs, dims, k - 1);
        crate::image::lemma_axis_stride_step(dims, k - 1);
        let st = axis_stride(dims, k - 1);
        assert(xs[k - 1] * st + st <= dims[k - 1] * st) by (nonlinear_arith)
            requires xs[k - 1] + 1 <= dims[k - 1], st >= 0;
        assert(xs[k - 1] * st >= 0) by (nonlinear_arith)
            requires xs[k - 1] >= 0, st >= 0;
    }
}

/// Products grow with their factors.
pub proof fn lemma_product_le(a: Seq<usize>, b: Seq<usize>)
    requires
        a.len() == b.len(),
        forall|i: int| 0 <= i < a.len() ==> #[trigger] a[i] <= b[i],
    ensures
        0 <= product(a) <= product(b),
    decreases a.len(),
{
    if a.len() > 0 {
        lemma_product_le(a.drop_last(), b.drop_last());
        crate::primary::lemma_product_nonneg(b.drop_last());
        assert(product(a.drop_last()) * a.last() <= product(b.drop_last()) * b.last()) by (nonlinear_arith)
            requires 0 <= product(a.drop_last()) <= product(b.drop_last()), a.last() <= b.last();
        assert(product(a.drop_last()) * a.last() >= 0) by (nonlinear_arith)
            requires 0 <= product(a.drop_last());
    }
}

/// A tile count is at least one and at most the axis length, and the last
/// tile starts inside the axis.
proof fn lemma_ceil_div(d: int, t: int)
    requires
        1 <= t <= d,
    ensures
        1 <= ceil_div(d, t) <= d,
        (ceil_div(d, t) - 1) * t < d,
{
    assert(1 <= ceil_div(d, t) <= d && (ceil_div(d, t) - 1) * t < d) by (nonlinear_arith)
        requires 1 <= t <= d;
}

/// The radix digits of `n`: one per radix, each below it.
proof fn lemma_radix_digits(counts: Seq<usize>, n: int)
    requires
        n >= 0,
        forall|i: int| 0 <= i < counts.len() ==> #[trigger] counts[i] > 0,
    ensures
        radix_digits(counts, n).len() == counts.len(),
        forall|i: int| 0 <= i < counts.len() ==> 0 <= #[trigger] radix_digits(counts, n)[i] < counts[i],
    decreases counts.len(),
{
    if counts.len() > 0 {
        let rest = counts.drop_first();
        assert forall|i: int| 0 <= i < rest.len() implies #[trigger] rest[i] > 0 by {
            assert(rest[i] == counts[i + 1]);
        }
        lemma_radix_digits(rest, n / counts[0] as int);
        let d = radix_digits(counts, n);
        assert forall|i: int| 0 <= i < counts.len() implies 0 <= #[trigger] d[i] < counts[i] by {
            if i > 0 {
                assert(d[i] == radix_digits(rest, n / counts[0] as int)[i - 1]);
                assert(rest[i - 1] == counts[i]);
            }
        }
    }
}

/// The digits of `n` in the mixed radix `counts`.
fn radix_digits_exec(counts: &[usize], n: usize) -> (r: Vec<usize>)
    requires
        forall|i: int| 0 <= i < counts@.len() ==> #[trigger] counts@[i] > 0,
    ensures
        r@.len() == counts@.len(),
        forall|i: int| 0 <= i < counts@.len() ==> #[trigger] r@[i] as int == radix_digits(counts@, n as int)[i],
{
    let ghost full = radix_digits(counts@, n as int);
    proof { lemma_radix_digits(counts@, n as int); }
    let mut out: Vec<usize> = Vec::new();
    let mut rest = n;
    let mut i: usize = 0;
    assert(counts@.subrange(0, counts@.len() as int) =~= counts@);
    assert(full.subrange(0, counts@.len() as int) =~= full);
    while i < counts.len()
        invariant
            i <= counts@.len(),
            forall|j: int| 0 <= j < counts@.len() ==> #[trigger] counts@[j] > 0,
            full == radix_digits(counts@, n as int),
            full.len() == counts@.len(),
            out@.len() == i,
            forall|j: int| 0 <= j < i ==> #[trigger] out@[j] as int == full[j],
            radix_digits(counts@.subrange(i as int, counts@.len() as int), rest as int)
                == full.subrange(i as int, counts@.len() as int),
        decreases counts@.len() - i,
    {
        let c = counts[i];
        let ghost tail = counts@.subrange(i as int, counts@.len() as int);
        proof {
            assert(tail.drop_first() =~= counts@.subrange(i + 1, counts@.len() as int));
            assert(tail[0] == c);
            let rd = radix_digits(tail, rest as int);
            assert(rd[0] == full[i as int]);
            assert(radix_digits(tail.drop_first(), rest as int / c as int) =~= rd.subrange(1, rd.len() as int));
            assert(full.subrange(i + 1, counts@.len() as int) =~= full.subrange(i as int, counts@.len() as int).subrange(1, rd.len() as int));
        }
        out.push(rest % c);
        rest = rest / c;
        i += 1;
    }
    out
}

impl TileGrid {
    /// Every tile count is positive.
    proof fn lemma_counts_positive(&self)
        requires
            self@.wf(),
        ensures
            forall|i: int| 0 <= i < self.counts@.len() ==> #[trigger] self.counts@[i] > 0
                && self.counts@[i] <= self.dims@[i],
    {
        assert forall|i: int| 0 <= i < self.counts@.len() implies #[trigger] self.counts@[i] > 0
            && self.counts@[i] <= self.dims@[i] by {
            assert(self.dims@[i] > 0);
            lemma_ceil_div(self.dims@[i] as int, self.tile@[i] as int);
        }
    }

    /// Total number of tiles in the grid.
    pub fn len(&self) -> (r: usize)
        requires
            self@.wf(),
        ensures
            r == self@.spec_len(),
    {
        proof { self.lemma_counts_positive(); }
        let n = self.counts.len();
        let mut acc: usize = 1;
        let mut i: usize = 0;
        assert(self.counts@.subrange(0, 0) =~= Seq::<usize>::empty());
        while i < n
            invariant
                self@.wf(),
                forall|j: int| 0 <= j < self.counts@.len() ==> #[trigger] self.counts@[j] > 0
                    && self.counts@[j] <= self.dims@[j],
                n == self.counts@.len(),
                i <= n,
                acc == product(self.counts@.subrange(0, i as int)),
            decreases n - i,
        {
            proof {
                let a = self.counts@.subrange(0, i + 1);
                let b = self.dims@.subrange(0, i + 1);
                assert forall|j: int| 0 <= j < a.len() implies #[trigger] a[j] <= b[j] by {
                    assert(self.counts@[j] <= self.dims@[j]);
                }
                lemma_product_le(a, b);
                assert(product(b) * 1 <= usize::MAX);
                assert(a.drop_last() =~= self.counts@.subrange(0, i as int));
            }
            acc = acc * self.counts[i];
            i += 1;
        }
        assert(self.counts@.subrange(0, n as int) =~= self.counts@);
        acc
    }

    /// Grid coordinate of tile `index`, fastest axis first.
    pub fn coord(&self, index: usize) -> (r: Vec<usize>)
        requires
            self@.wf(),
        ensures
            r@.len() == self.dims@.len(),
            forall|ax: int| 0 <= ax < r@.len() ==> #[trigger] r@[ax] as int == self@.spec_coord(index as int)[ax],
    {
        proof { self.lemma_counts_positive(); }
        radix_digits_exec(self.counts.as_slice(), index)
    }

    /// Extent of tile `index` along each axis. Edge tiles are *clipped* to the
    /// image, so they hold fewer pixels than `ZTILEn` implies.
    pub fn extent(&self, index: usize) -> (r: Vec<usize>)
        requires
            self@.wf(),
        ensures
            r@ == self@.spec_extent(index as int),
    {
        let coord = self.coord(index);
        proof {
            self.lemma_counts_positive();
            lemma_radix_digits(self.counts@, index as int);
        }
        let n = self.dims.len();
        let mut out: Vec<usize> = Vec::new();
        let mut ax: usize = 0;
        while ax < n
            invariant
                self@.wf(),
                n == self.dims@.len(),
                ax <= n,
                coord@.len() == n,
                forall|j: int| 0 <= j < n ==> #[trigger] coord@[j] as int == self@.spec_coord(index as int)[j],
                forall|j: int| 0 <= j < n ==> 0 <= #[trigger] self@.spec_coord(index as int)[j] < self.counts@[j],
                out@ == self@.spec_extent(index as int).subrange(0, ax as int),
            decreases n - ax,
        {
            let c = coord[ax];
            let t = self.tile[ax];
            let d = self.dims[ax];
            proof {
                assert(self.dims@[ax as int] > 0);
                assert(self@.spec_coord(index as int)[ax as int] < self.counts@[ax as int]);
                lemma_ceil_div(d as int, t as int);
                assert(c * t < d) by (nonlinear_arith)
                    requires c + 1 <= ceil_div(d as int, t as int), (ceil_div(d as int, t as int) - 1) * t < d, t >= 1;
            }
            let start = c * t;
            let left = if d >= start { d - start } else { 0 };
            out.push(if t <= left { t } else { left });
            ax += 1;
            assert(out@ =~= self@.spec_extent(index as int).subrange(0, ax as int));
        }
        assert(self@.spec_extent(index as int).subrange(0, n as int) =~= self@.spec_extent(index as int));
        out
    }
}

impl TileGrid {
    /// Every tile extent is positive and at most the tile and the axis.
    proof fn lemma_extent_bounds(&self, index: int)
        requires
            self@.wf(),
            index >= 0,
        ensures
            self@.spec_extent(index).len() == self.dims@.len(),
            forall|ax: int| 0 <= ax < self.dims@.len() ==> 1 <= #[trigger] self@.spec_extent(index)[ax] <= self.tile@[ax]
                && self.tile@[ax] <= self.dims@[ax]
                && self@.spec_coord(index)[ax] * self.tile@[ax] + self@.spec_extent(index)[ax] <= self.dims@[ax]
                && 0 <= self@.spec_coord(index)[ax] * self.tile@[ax],
    {
        self.lemma_counts_positive();
        lemma_radix_digits(self.counts@, index);
        assert forall|ax: int| 0 <= ax < self.dims@.len() implies 1 <= #[trigger] self@.spec_extent(index)[ax] <= self.tile@[ax]
            && self.tile@[ax] <= self.dims@[ax]
            && self@.spec_coord(index)[ax] * self.tile@[ax] + self@.spec_extent(index)[ax] <= self.dims@[ax]
            && 0 <= self@.spec_coord(index)[ax] * self.tile@[ax] by {
            let c = self@.spec_coord(index)[ax];
            let t = self.tile@[ax] as int;
            let d = self.dims@[ax] as int;
            assert(self.dims@[ax] > 0);
            assert(0 <= c < self.counts@[ax]);
            lemma_ceil_div(d, t);
            assert(c * t < d) by (nonlinear_arith)
                requires c + 1 <= ceil_div(d, t), (ceil_div(d, t) - 1) * t < d, t >= 1;
            assert(0 <= c * t) by (nonlinear_arith) requires c >= 0, t >= 1;
        }
    }

    /// Number of pixels actually stored in tile `index`.
    pub fn tile_pixels(&self, index: usize) -> (r: usize)
        requires
            self@.wf(),
        ensures
            r == product(self@.spec_extent(index as int)),
    {
        let extent = self.extent(index);
        proof { self.lemma_extent_bounds(index as int); }
        let n = extent.len();
        let mut acc: usize = 1;
        let mut i: usize = 0;
        assert(extent@.subrange(0, 0) =~= Seq::<usize>::empty());
        while i < n
            invariant
                self@.wf(),
                n == extent@.len(),
                n == self.dims@.len(),
                extent@ == self@.spec_extent(index as int),
                forall|ax: int| 0 <= ax < n ==> #[trigger] extent@[ax] <= self.dims@[ax],
                i <= n,
                acc == product(extent@.subrange(0, i as int)),
            decreases n - i,
        {
            proof {
                let a = extent@.subrange(0, i + 1);
                let b = self.dims@.subrange(0, i + 1);
                assert forall|j: int| 0 <= j < a.len() implies #[trigger] a[j] <= b[j] by {
                    assert(extent@[j] <= self.dims@[j]);
                }
                lemma_product_le(a, b);
                assert(product(b) * 1 <= usize::MAX);
                assert(a.drop_last() =~= extent@.subrange(0, i as int));
            }
            acc = acc * extent[i];
            i += 1;
        }
        assert(extent@.subrange(0, n as int) =~= extent@);
        acc
    }

    /// The flat image index where row `r` of tile `index` starts.
    fn row_offset_exec(&self, index: usize, coord: &[usize], extent: &[usize], strides: &[usize], r: usize) -> (off: usize)
        requires
            self@.wf(),
            self.dims@.len() > 0,
            coord@.len() == self.dims@.len(),
            forall|ax: int| 0 <= ax < coord@.len() ==> #[trigger] coord@[ax] as int == self@.spec_coord(index as int)[ax],
            extent@ == self@.spec_extent(index as int),
            strides@.len() == self.dims@.len(),
            forall|e: int| 0 <= e < self.dims@.len() ==> strides@[e] == axis_stride(self.dims@, e),
        ensures
            off == self@.row_offset(index as int, r as int),
            off < product(self.dims@),
    {
        let n = self.dims.len();
        proof { self.lemma_extent_bounds(index as int); }
        let higher = vstd::slice::slice_subrange(extent, 1, n);
        let h = radix_digits_exec(higher, r);
        let ghost pos = self@.row_position(index as int, r as int);
        proof {
            lemma_radix_digits(extent@.subrange(1, n as int), r as int);
            assert forall|ax: int| 0 <= ax < n implies 0 <= #[trigger] pos[ax] < self.dims@[ax] by {
                if ax > 0 {
                    assert(extent@.subrange(1, n as int)[ax - 1] == extent@[ax]);
                }
            }
            lemma_weighted_bound(pos, self.dims@, n as int);
            assert(self.dims@.subrange(0, n as int) =~= self.dims@);
        }
        let mut acc: usize = 0;
        let mut ax: usize = 0;
        while ax < n
            invariant
                self@.wf(),
                n == self.dims@.len(),
                ax <= n,
                coord@.len() == n,
                forall|j: int| 0 <= j < n ==> #[trigger] coord@[j] as int == self@.spec_coord(index as int)[j],
                h@.len() == n - 1,
                forall|j: int| 0 <= j < n - 1 ==> #[trigger] h@[j] as int
                    == radix_digits(extent@.subrange(1, n as int), r as int)[j],
                extent@ == self@.spec_extent(index as int),
                strides@.len() == n,
                forall|e: int| 0 <= e < n ==> strides@[e] == axis_stride(self.dims@, e),
                pos == self@.row_position(index as int, r as int),
                forall|j: int| 0 <= j < n ==> 0 <= #[trigger] pos[j] < self.dims@[j],
                weighted_sum(pos, self.dims@, n as int) < axis_stride(self.dims@, n as int),
                axis_stride(self.dims@, n as int) == product(self.dims@),
                acc == weighted_sum(pos, self.dims@, ax as int),
            decreases n - ax,
        {
            proof {
                lemma_weighted_bound(pos, self.dims@, ax + 1);
                lemma_weighted_prefix(pos, self.dims@, ax + 1, n as int);
                assert(self.tile@[ax as int] == self.tile@[ax as int]);
            }
            let hv: usize = if ax == 0 { 0 } else { h[ax - 1] };
            let p = coord[ax] * self.tile[ax] + hv;
            assert(p == pos[ax as int]);
            acc = acc + p * strides[ax];
            ax += 1;
        }
        acc
    }

    /// Scatter one decoded tile into the flat image buffer.
    ///
    /// The fastest axis of a tile is contiguous in both source and destination,
    /// so each tile row is a single copy; the loop walks the higher axes.
    pub fn blit<T: Copy>(&self, index: usize, src: &[T], dst: &mut [T])
        requires
            self@.wf(),
            self.dims@.len() > 0,
        ensures
            final(dst)@ == self@.spec_blit(index as int, src@, old(dst)@),
    {
        let extent = self.extent(index);
        let n = extent.len();
        let e0 = extent[0];
        let run = if e0 <= src.len() { e0 } else { src.len() };
        if run == 0 {
            return;
        }
        let coord = self.coord(index);
        let strides = crate::image::axis_strides(self.dims.as_slice());
        proof {
            self.lemma_extent_bounds(index as int);
            let e = extent@;
            let b = self.dims@;
            lemma_product_le(e, b);
            assert(b.subrange(0, n as int) =~= b);
            crate::image::lemma_product_split(e, n as int);
            assert(e.subrange(0, n as int) =~= e);
            crate::primary::lemma_product_nonneg(e.subrange(1, n as int));
        }
        let higher = vstd::slice::slice_subrange(extent.as_slice(), 1, n);
        proof {
            let hs = higher@;
            assert(hs =~= extent@.subrange(1, n as int));
            assert forall|j: int| 0 <= j <= hs.len() implies #[trigger] product(hs.subrange(0, j)) * 1 <= usize::MAX by {
                assert forall|i: int| 0 <= i < hs.len() implies #[trigger] hs[i] >= 1 by {
                    assert(hs[i] == extent@[i + 1]);
                }
                lemma_prefix_product_le(hs, j);
                assert(product(hs) <= product(hs) * e0) by (nonlinear_arith)
                    requires product(hs) >= 0, e0 >= 1;
            }
        }
        let rows = crate::primary::scaled_product(1, higher);
        let ghost dst0 = dst@;
        let mut r: usize = 0;
        while r < rows
            invariant
                self@.wf(),
                self.dims@.len() > 0,
                n == self.dims@.len(),
                extent@ == self@.spec_extent(index as int),
                e0 == extent@[0],
                run == (if e0 <= src@.len() { e0 as int } else { src@.len() as int }),
                run > 0,
                coord@.len() == n,
                forall|j: int| 0 <= j < n ==> #[trigger] coord@[j] as int == self@.spec_coord(index as int)[j],
                strides@.len() == n,
                forall|e: int| 0 <= e < n ==> strides@[e] == axis_stride(self.dims@, e),
                rows == product(extent@.subrange(1, n as int)),
                rows * e0 <= product(self.dims@),
                product(self.dims@) <= usize::MAX,
                r <= rows,
                dst@.len() == dst0.len(),
                dst@ == self@.blit_rows(index as int, src@, dst0, r as nat),
            decreases rows - r,
        {
            proof {
                assert(r * e0 + e0 <= rows * e0) by (nonlinear_arith)
                    requires r + 1 <= rows, e0 >= 0;
            }
            let src_off = r * e0;
            if src_off < src.len() {
                let off = self.row_offset_exec(index, coord.as_slice(), extent.as_slice(), strides.as_slice(), r);
                let avail = src.len() - src_off;
                let left = if dst.len() >= off { dst.len() - off } else { 0 };
                let m1 = if run <= avail { run } else { avail };
                let m = if m1 <= left { m1 } else { left };
                if m > 0 {
                    let ghost before = dst@;
                    let dl = dst.len();
                    let sl = src.len();
                    let mut j: usize = 0;
                    while j < m
                        invariant
                            j <= m,
                            dl == before.len(),
                            sl == src@.len(),
                            off + m <= before.len(),
                            src_off + m <= src@.len(),
                            dst@.len() == before.len(),
                            forall|k: int| 0 <= k < off ==> dst@[k] == before[k],
                            forall|k: int| off <= k < off + j ==> dst@[k] == src@[src_off + k - off],
                            forall|k: int| off + j <= k < before.len() ==> dst@[k] == before[k],
                        decreases m - j,
                    {
                        dst[off + j] = src[src_off + j];
                        j += 1;
                    }
                    assert(dst@ =~= before.subrange(0, off as int) + src@.subrange(src_off as int, src_off + m)
                        + before.subrange(off + m, before.len() as int));
                }
            }
            r += 1;
        }
    }
}

/// With every factor at least one, a prefix's product is at most the whole's.
proof fn lemma_prefix_product_le(s: Seq<usize>, j: int)
    requires
        0 <= j <= s.len(),
        forall|i: int| 0 <= i < s.len() ==> #[trigger] s[i] >= 1,
    ensures
        product(s.subrange(0, j)) <= product(s),
    decreases s.len(),
{
    if j < s.len() {
        let t = s.drop_last();
        assert forall|i: int| 0 <= i < t.len() implies #[trigger] t[i] >= 1 by {
            assert(t[i] == s[i]);
        }
        lemma_prefix_product_le(t, j);
        assert(t.subrange(0, j) =~= s.subrange(0, j));
        crate::primary::lemma_product_nonneg(t);
        assert(product(t) <= product(t) * s.last()) by (nonlinear_arith)
            requires product(t) >= 0, s.last() >= 1;
    } else {
        assert(s.subrange(0, j) =~= s);
    }
}

/// A prefix of a weighted sum of nonnegative terms is at most the whole.
proof fn lemma_weighted_prefix(xs: Seq<int>, dims: Seq<usize>, k: int, n: int)
    requires
        0 <= k <= n <= dims.len(),
        forall|ax: int| 0 <= ax < n ==> 0 <= #[trigger] xs[ax] < dims[ax],
    ensures
        weighted_sum(xs, dims, k) <= weighted_sum(xs, dims, n),
    decreases n - k,
{
    if k < n {
        lemma_weighted_prefix(xs, dims, k, n - 1);
        crate::image::lemma_axis_stride_step(dims, n - 1);
        assert(xs[n - 1] * axis_stride(dims, n - 1) >= 0) by (nonlinear_arith)
            requires xs[n - 1] >= 0, axis_stride(dims, n - 1) >= 0;
    }
}

// ── Column layout ──

/// Where the columns of a compressed image's table lie within a row.
pub struct ColumnInfo {
    /// Byte offset of the `COMPRESSED_DATA` descriptor.
    pub compressed_data_offset: usize,
    /// Byte offset of the `ZSCALE` column, if there is one.
    pub zscale_offset: Option<usize>,
    /// Byte offset of the `ZZERO` column, if there is one.
    pub zzero_offset: Option<usize>,
}

/// Column `n` (1-based) is named `name` by its TTYPEn.
pub open spec fn column_named(cards: Seq<CardModel>, n: nat, name: Seq<char>) -> bool {
    numbered_str(cards, ttype_name(), n) == Some(name)
}

/// The last of the first `k` columns named `name`, 0-based.
pub open spec fn last_named(cards: Seq<CardModel>, name: Seq<char>, k: nat) -> Option<nat>
    decreases k,
{
    if k == 0 {
        None
    } else if column_named(cards, k, name) {
        Some((k - 1) as nat)
    } else {
        last_named(cards, name, (k - 1) as nat)
    }
}

/// The byte widths of the first `k` columns from their TFORMs, or the
/// first column's error: a missing TFORM makes the header invalid.
pub open spec fn layout_widths(cards: Seq<CardModel>, k: nat) -> core::result::Result<Seq<nat>, Error>
    decreases k,
{
    if k == 0 {
        Ok(Seq::empty())
    } else {
        match layout_widths(cards, (k - 1) as nat) {
            Err(e) => Err(e),
            Ok(ws) => match numbered_str(cards, tform_name(), k) {
                None => Err(Error::InvalidHeader),
                Some(tf) => match spec_parse_tform_binary(tf) {
                    Err(e) => Err(e),
                    Ok((rep, ty)) => Ok(ws.push(byte_width(rep as nat, ty))),
                },
            },
        }
    }
}

/// The sum of the first `i` widths.
pub open spec fn width_sum(ws: Seq<nat>, i: int) -> int
    decreases i,
{
    if i <= 0 { 0 } else { width_sum(ws, i - 1) + ws[i - 1] }
}

/// The layout of a compressed image's table: the offsets of its
/// `COMPRESSED_DATA`, `ZSCALE` and `ZZERO` columns (the last column of each
/// name).
pub open spec fn spec_column_layout(cards: Seq<CardModel>, tfields: nat)
    -> core::result::Result<(int, Option<int>, Option<int>), Error> {
    match layout_widths(cards, tfields) {
        Err(e) => Err(e),
        Ok(ws) => match last_named(cards, "COMPRESSED_DATA"@, tfields) {
            None => Err(Error::InvalidHeader),
            Some(c) => Ok((
                width_sum(ws, c as int),
                match last_named(cards, "ZSCALE"@, tfields) { Some(i) => Some(width_sum(ws, i as int)), None => None },
                match last_named(cards, "ZZERO"@, tfields) { Some(i) => Some(width_sum(ws, i as int)), None => None },
            )),
        },
    }
}

/// The running column offsets fit in a `usize`.
pub open spec fn layout_fits(cards: Seq<CardModel>, tfields: nat) -> bool {
    forall|k: nat| k <= tfields ==> (#[trigger] layout_widths(cards, k) matches Ok(ws) ==> width_sum(ws, k as int) <= usize::MAX)
}

proof fn lemma_last_named_range(cards: Seq<CardModel>, name: Seq<char>, k: nat)
    ensures
        last_named(cards, name, k) matches Some(i) ==> i < k,
    decreases k,
{
    if k > 0 {
        lemma_last_named_range(cards, name, (k - 1) as nat);
    }
}

proof fn lemma_layout_widths_len(cards: Seq<CardModel>, k: nat)
    ensures
        layout_widths(cards, k) matches Ok(ws) ==> ws.len() == k,
    decreases k,
{
    if k > 0 {
        lemma_layout_widths_len(cards, (k - 1) as nat);
    }
}

proof fn lemma_layout_widths_err(cards: Seq<CardModel>, m: nat, n: nat)
    requires
        m <= n,
        layout_widths(cards, m) is Err,
    ensures
        layout_widths(cards, n) == layout_widths(cards, m),
    decreases n - m,
{
    if m < n {
        lemma_layout_widths_err(cards, m, (n - 1) as nat);
    }
}

/// The width sums of a longer prefix extend those of a shorter one.
proof fn lemma_width_sum_push(ws: Seq<nat>, w: nat, i: int)
    requires
        0 <= i <= ws.len(),
    ensures
        width_sum(ws.push(w), i) == width_sum(ws, i),
    decreases i,
{
    if i > 0 {
        lemma_width_sum_push(ws, w, i - 1);
    }
}

/// The bytes `COMPRESSED_DATA`, `ZSCALE` and `ZZERO` as strings.
fn layout_name(which: u8) -> (r: &'static str)
    ensures
        which == 0 ==> r@ == "COMPRESSED_DATA"@,
        which == 1 ==> r@ == "ZSCALE"@,
        which == 2 ==> r@ == "ZZERO"@,
{
    if which == 0 {
        "COMPRESSED_DATA"
    } else if which == 1 {
        "ZSCALE"
    } else {
        "ZZERO"
    }
}

/// Parse the binary table column layout to find the COMPRESSED_DATA,
/// ZSCALE and ZZERO columns.
pub fn parse_column_layout(cards: &[Card], tfields: usize) -> (r: Result<ColumnInfo>)
    requires
        tforms_sliceable(cards_view(cards@), tfields as nat),
        layout_fits(cards_view(cards@), tfields as nat),
    ensures
        r matches Ok(ci) ==> spec_column_layout(cards_view(cards@), tfields as nat)
            == Ok::<(int, Option<int>, Option<int>), Error>((
                ci.compressed_data_offset as int,
                match ci.zscale_offset { Some(o) => Some(o as int), None => None },
                match ci.zzero_offset { Some(o) => Some(o as int), None => None },
            )),
        r matches Err(e) ==> spec_column_layout(cards_view(cards@), tfields as nat)
            == Err::<(int, Option<int>, Option<int>), Error>(e),
{
    let ghost cv = cards_view(cards@);
    let tform = [84u8, 70u8, 79u8, 82u8, 77u8];
    let ttype = [84u8, 84u8, 89u8, 80u8, 69u8];
    assert(tform@ =~= tform_name());
    assert(ttype@ =~= ttype_name());
    let comp_name = layout_name(0);
    let scale_name = layout_name(1);
    let zero_name = layout_name(2);
    // First pass: the columns' names.
    let mut compressed_col: Option<usize> = None;
    let mut zscale_col: Option<usize> = None;
    let mut zzero_col: Option<usize> = None;
    let mut i: usize = 0;
    while i < tfields
        invariant
            i <= tfields,
            cv == cards_view(cards@),
            ttype@ == ttype_name(),
            comp_name@ == "COMPRESSED_DATA"@,
            scale_name@ == "ZSCALE"@,
            zero_name@ == "ZZERO"@,
            compressed_col matches Some(c) ==> last_named(cv, "COMPRESSED_DATA"@, i as nat) == Some(c as nat),
            compressed_col is None ==> last_named(cv, "COMPRESSED_DATA"@, i as nat) is None,
            zscale_col matches Some(c) ==> last_named(cv, "ZSCALE"@, i as nat) == Some(c as nat),
            zscale_col is None ==> last_named(cv, "ZSCALE"@, i as nat) is None,
            zzero_col matches Some(c) ==> last_named(cv, "ZZERO"@, i as nat) == Some(c as nat),
            zzero_col is None ==> last_named(cv, "ZZERO"@, i as nat) is None,
        decreases tfields - i,
    {
        let n = i + 1;
        proof {
            reveal_strlit("COMPRESSED_DATA");
            reveal_strlit("ZSCALE");
            reveal_strlit("ZZERO");
            assert("COMPRESSED_DATA"@.len() == 15);
            assert("ZSCALE"@.len() == 6);
            assert("ZZERO"@.len() == 5);
        }
        match crate::bintable::numbered_string_value(cards, &ttype, n) {
            Some(name) => {
                if text_equals(name.as_str(), comp_name) {
                    compressed_col = Some(i);
                } else if text_equals(name.as_str(), scale_name) {
                    zscale_col = Some(i);
                } else if text_equals(name.as_str(), zero_name) {
                    zzero_col = Some(i);
                }
            },
            None => {},
        }
        i += 1;
    }
    // Second pass: the byte offsets from the TFORM values.
    let mut offsets: Vec<usize> = Vec::new();
    let mut offset: usize = 0;
    let mut k: usize = 0;
    let ghost mut ws: Seq<nat> = Seq::empty();
    while k < tfields
        invariant
            k <= tfields,
            cv == cards_view(cards@),
            tform@ == tform_name(),
            tforms_sliceable(cv, tfields as nat),
            layout_fits(cv, tfields as nat),
            layout_widths(cv, k as nat) == Ok::<Seq<nat>, Error>(ws),
            ws.len() == k,
            offsets@.len() == k,
            forall|j: int| 0 <= j < k ==> #[trigger] offsets@[j] as int == width_sum(ws, j),
            offset == width_sum(ws, k as int),
        decreases tfields - k,
    {
        let n = k + 1;
        offsets.push(offset);
        let tf = match crate::bintable::numbered_string_value(cards, &tform, n) {
            Some(t) => t,
            None => {
                proof { lemma_layout_widths_err(cv, n as nat, tfields as nat); }
                return Err(Error::InvalidHeader);
            },
        };
        assert(numbered_str(cv, tform_name(), n as nat) == Some(tf@));
        let (repeat, col_type) = match parse_tform_binary(tf.as_str()) {
            Ok(v) => v,
            Err(e) => {
                proof { lemma_layout_widths_err(cv, n as nat, tfields as nat); }
                return Err(e);
            },
        };
        let ghost w = crate::bintable::byte_width(repeat as nat, col_type);
        proof {
            assert(layout_widths(cv, n as nat) == Ok::<Seq<nat>, Error>(ws.push(w)));
            assert(width_sum(ws.push(w), n as int) <= usize::MAX);
            lemma_width_sum_push(ws, w, k as int);
            assert(w <= usize::MAX);
        }
        let width = crate::bintable::compute_byte_width(repeat, &col_type);
        proof {
            assert forall|j: int| 0 <= j < k implies #[trigger] offsets@[j] as int == width_sum(ws.push(w), j) by {
                lemma_width_sum_push(ws, w, j);
            }
            ws = ws.push(w);
        }
        offset = offset + width;
        k += 1;
    }
    let compressed_idx = match compressed_col {
        Some(c) => c,
        None => return Err(Error::InvalidHeader),
    };
    proof {
        lemma_last_named_range(cv, "COMPRESSED_DATA"@, tfields as nat);
        lemma_last_named_range(cv, "ZSCALE"@, tfields as nat);
        lemma_last_named_range(cv, "ZZERO"@, tfields as nat);
    }
    let zscale_offset = match zscale_col { Some(c) => Some(offsets[c]), None => None };
    let zzero_offset = match zzero_col { Some(c) => Some(offsets[c]), None => None };
    Ok(ColumnInfo { compressed_data_offset: offsets[compressed_idx], zscale_offset, zzero_offset })
}

// ── Decoding and placing tiles ──

/// The pixels of tile `t` of a Rice-compressed image: its heap bytes, from
/// the tile's start on, Rice-decoded into the tile's pixel count.
pub open spec fn spec_rice_tile(
    fits: Seq<u8>, ds: int, n1: int, n2: int, comp: int, g: GridModel, blocksize: nat, prm: RiceParams, t: int,
) -> core::result::Result<Seq<i32>, Error> {
    match spec_tile_bytes(fits, ds, n1, n2, t, comp) {
        Err(e) => Err(e),
        Ok((st, _)) => spec_rice_decompress(fits.subrange(st, fits.len() as int), product(g.spec_extent(t)) as nat, blocksize, prm),
    }
}

/// The decoded tiles `0..k` of a Rice-compressed image, or the first
/// tile's error.
pub open spec fn spec_rice_tiles(
    fits: Seq<u8>, ds: int, n1: int, n2: int, comp: int, g: GridModel, blocksize: nat, prm: RiceParams, k: nat,
) -> core::result::Result<Seq<Seq<i32>>, Error>
    decreases k,
{
    if k == 0 {
        Ok(Seq::empty())
    } else {
        match spec_rice_tiles(fits, ds, n1, n2, comp, g, blocksize, prm, (k - 1) as nat) {
            Err(e) => Err(e),
            Ok(ts) => match spec_rice_tile(fits, ds, n1, n2, comp, g, blocksize, prm, k - 1) {
                Err(e) => Err(e),
                Ok(v) => Ok(ts.push(v)),
            },
        }
    }
}

/// The inflated bytes of tile `t` of a GZIP-compressed image.
pub open spec fn spec_gzip_tile(fits: Seq<u8>, ds: int, n1: int, n2: int, comp: int, t: int)
    -> core::result::Result<Seq<u8>, Error> {
    match spec_tile_bytes(fits, ds, n1, n2, t, comp) {
        Err(e) => Err(e),
        Ok((st, cnt)) => spec_gzip_decompress(fits.subrange(st, st + cnt)),
    }
}

/// The inflated tiles `0..k` of a GZIP-compressed image, or the first
/// tile's error.
pub open spec fn spec_gzip_tiles(fits: Seq<u8>, ds: int, n1: int, n2: int, comp: int, k: nat)
    -> core::result::Result<Seq<Seq<u8>>, Error>
    decreases k,
{
    if k == 0 {
        Ok(Seq::empty())
    } else {
        match spec_gzip_tiles(fits, ds, n1, n2, comp, (k - 1) as nat) {
            Err(e) => Err(e),
            Ok(ts) => match spec_gzip_tile(fits, ds, n1, n2, comp, k - 1) {
                Err(e) => Err(e),
                Ok(v) => Ok(ts.push(v)),
            },
        }
    }
}

/// The descriptors and heap of tiles `0..k` can be addressed within a
/// `usize`.
pub open spec fn tiles_addressable(ds: int, n1: int, n2: int, comp: int, k: int) -> bool {
    &&& forall|t: int| 0 <= t < k ==> ds + #[trigger] (t * n1) + comp + 8 <= usize::MAX
    &&& ds + n1 * n2 + 0x2_0000_0000 <= usize::MAX
}

/// Decode the Rice-compressed tiles `0..k`.
fn decode_rice_tiles(
    fits_data: &[u8], ds: usize, n1: usize, n2: usize, comp: usize, grid: &TileGrid, blocksize: usize, prm: &RiceParams, k: usize,
) -> (r: Result<Vec<Vec<i32>>>)
    requires
        grid@.wf(),
        prm.wf(),
        0 < blocksize <= i32::MAX,
        fits_data@.len() < 0x0100_0000_0000_0000,
        tiles_addressable(ds as int, n1 as int, n2 as int, comp as int, k as int),
        forall|t: int| 0 <= t < k ==> #[trigger] product(grid@.spec_extent(t)) <= i32::MAX,
    ensures
        r matches Ok(ts) ==> spec_rice_tiles(fits_data@, ds as int, n1 as int, n2 as int, comp as int, grid@, blocksize as nat, *prm, k as nat)
            == Ok::<Seq<Seq<i32>>, Error>(Seq::new(ts@.len(), |i: int| ts@[i]@)),
        r matches Err(e) ==> spec_rice_tiles(fits_data@, ds as int, n1 as int, n2 as int, comp as int, grid@, blocksize as nat, *prm, k as nat)
            == Err::<Seq<Seq<i32>>, Error>(e),
{
    let mut tiles: Vec<Vec<i32>> = Vec::new();
    assert(Seq::new(tiles@.len(), |i: int| tiles@[i]@) =~= Seq::<Seq<i32>>::empty());
    let mut t: usize = 0;
    while t < k
        invariant
            t <= k,
            grid@.wf(),
            prm.wf(),
            0 < blocksize <= i32::MAX,
            fits_data@.len() < 0x0100_0000_0000_0000,
            tiles_addressable(ds as int, n1 as int, n2 as int, comp as int, k as int),
            forall|j: int| 0 <= j < k ==> #[trigger] product(grid@.spec_extent(j)) <= i32::MAX,
            spec_rice_tiles(fits_data@, ds as int, n1 as int, n2 as int, comp as int, grid@, blocksize as nat, *prm, t as nat)
                == Ok::<Seq<Seq<i32>>, Error>(Seq::new(tiles@.len(), |i: int| tiles@[i]@)),
        decreases k - t,
    {
        assert(ds + t * n1 + comp + 8 <= usize::MAX);
        let (data, _count) = match extract_tile_bytes(fits_data, ds, n1, n2, t, comp) {
            Ok(x) => x,
            Err(e) => {
                proof { lemma_rice_tiles_err(fits_data@, ds as int, n1 as int, n2 as int, comp as int, grid@, blocksize as nat, *prm, (t + 1) as nat, k as nat); }
                return Err(e);
            },
        };
        let n = grid.tile_pixels(t);
        let vals = match rice_decompress(data, n, blocksize, prm) {
            Ok(v) => v,
            Err(e) => {
                proof { lemma_rice_tiles_err(fits_data@, ds as int, n1 as int, n2 as int, comp as int, grid@, blocksize as nat, *prm, (t + 1) as nat, k as nat); }
                return Err(e);
            },
        };
        let ghost before = tiles@;
        tiles.push(vals);
        proof {
            assert(Seq::new(tiles@.len(), |i: int| tiles@[i]@) =~= Seq::new(before.len(), |i: int| before[i]@).push(vals@));
        }
        t += 1;
    }
    Ok(tiles)
}

/// Once decoding the Rice tiles fails, it fails the same way for more tiles.
proof fn lemma_rice_tiles_err(
    fits: Seq<u8>, ds: int, n1: int, n2: int, comp: int, g: GridModel, blocksize: nat, prm: RiceParams, m: nat, n: nat,
)
    requires
        m <= n,
        spec_rice_tiles(fits, ds, n1, n2, comp, g, blocksize, prm, m) is Err,
    ensures
        spec_rice_tiles(fits, ds, n1, n2, comp, g, blocksize, prm, n) == spec_rice_tiles(fits, ds, n1, n2, comp, g, blocksize, prm, m),
    decreases n - m,
{
    if m < n {
        lemma_rice_tiles_err(fits, ds, n1, n2, comp, g, blocksize, prm, m, (n - 1) as nat);
    }
}

/// Once inflating the GZIP tiles fails, it fails the same way for more tiles.
proof fn lemma_gzip_tiles_err(fits: Seq<u8>, ds: int, n1: int, n2: int, comp: int, m: nat, n: nat)
    requires
        m <= n,
        spec_gzip_tiles(fits, ds, n1, n2, comp, m) is Err,
    ensures
        spec_gzip_tiles(fits, ds, n1, n2, comp, n) == spec_gzip_tiles(fits, ds, n1, n2, comp, m),
    decreases n - m,
{
    if m < n {
        lemma_gzip_tiles_err(fits, ds, n1, n2, comp, m, (n - 1) as nat);
    }
}

/// Inflate the GZIP-compressed tiles `0..k`.
fn decode_gzip_tiles(fits_data: &[u8], ds: usize, n1: usize, n2: usize, comp: usize, k: usize) -> (r: Result<Vec<Vec<u8>>>)
    requires
        fits_data@.len() < 0x0100_0000_0000_0000,
        tiles_addressable(ds as int, n1 as int, n2 as int, comp as int, k as int),
    ensures
        r matches Ok(ts) ==> spec_gzip_tiles(fits_data@, ds as int, n1 as int, n2 as int, comp as int, k as nat)
            == Ok::<Seq<Seq<u8>>, Error>(Seq::new(ts@.len(), |i: int| ts@[i]@)),
        r matches Err(e) ==> spec_gzip_tiles(fits_data@, ds as int, n1 as int, n2 as int, comp as int, k as nat)
            == Err::<Seq<Seq<u8>>, Error>(e),
{
    let mut tiles: Vec<Vec<u8>> = Vec::new();
    assert(Seq::new(tiles@.len(), |i: int| tiles@[i]@) =~= Seq::<Seq<u8>>::empty());
    let mut t: usize = 0;
    while t < k
        invariant
            t <= k,
            fits_data@.len() < 0x0100_0000_0000_0000,
            tiles_addressable(ds as int, n1 as int, n2 as int, comp as int, k as int),
            spec_gzip_tiles(fits_data@, ds as int, n1 as int, n2 as int, comp as int, t as nat)
                == Ok::<Seq<Seq<u8>>, Error>(Seq::new(tiles@.len(), |i: int| tiles@[i]@)),
        decreases k - t,
    {
        assert(ds + t * n1 + comp + 8 <= usize::MAX);
        let (data, count) = match extract_tile_bytes(fits_data, ds, n1, n2, t, comp) {
            Ok(x) => x,
            Err(e) => {
                proof { lemma_gzip_tiles_err(fits_data@, ds as int, n1 as int, n2 as int, comp as int, (t + 1) as nat, k as nat); }
                return Err(e);
            },
        };
        let body = vstd::slice::slice_subrange(data, 0, count);
        proof {
            let (st, cnt) = spec_tile_bytes(fits_data@, ds as int, n1 as int, n2 as int, t as int, comp as int)->Ok_0;
            assert(body@ =~= fits_data@.subrange(st, st + cnt));
        }
        let raw = match gzip_decompress(body) {
            Ok(v) => v,
            Err(e) => {
                proof { lemma_gzip_tiles_err(fits_data@, ds as int, n1 as int, n2 as int, comp as int, (t + 1) as nat, k as nat); }
                return Err(e);
            },
        };
        let ghost before = tiles@;
        tiles.push(raw);
        proof {
            assert(Seq::new(tiles@.len(), |i: int| tiles@[i]@) =~= Seq::new(before.len(), |i: int| before[i]@).push(raw@));
        }
        t += 1;
    }
    Ok(tiles)
}

/// The image after scattering tiles `0..k` into `out`.
pub open spec fn scattered<T>(g: GridModel, tiles: Seq<Seq<T>>, out: Seq<T>, k: nat) -> Seq<T>
    decreases k,
{
    if k == 0 {
        out
    } else {
        g.spec_blit(k - 1, tiles[k - 1], scattered(g, tiles, out, (k - 1) as nat))
    }
}

/// Scatter decoded tiles into an image of `total` pixels filled with `fill`.
fn scatter<T: Copy>(grid: &TileGrid, tiles: &Vec<Vec<T>>, total: usize, fill: T) -> (r: Vec<T>)
    requires
        grid@.wf(),
        grid@.dims.len() > 0,
    ensures
        r@ == scattered(grid@, tiles_view(tiles@), Seq::new(total as nat, |i: int| fill), tiles@.len()),
{
    let ghost tv = tiles_view(tiles@);
    let mut out: Vec<T> = Vec::new();
    while out.len() < total
        invariant
            out@.len() <= total,
            forall|i: int| 0 <= i < out@.len() ==> out@[i] == fill,
        decreases total - out@.len(),
    {
        out.push(fill);
    }
    let ghost out0 = out@;
    assert(out0 =~= Seq::new(total as nat, |i: int| fill));
    let mut t: usize = 0;
    while t < tiles.len()
        invariant
            t <= tiles@.len(),
            grid@.wf(),
            grid@.dims.len() > 0,
            tv == tiles_view(tiles@),
            out@ == scattered(grid@, tv, out0, t as nat),
        decreases tiles@.len() - t,
    {
        grid.blit(t, tiles[t].as_slice(), out.as_mut_slice());
        t += 1;
    }
    out
}

/// Each tile's values narrowed to 8 bits (`as u8`).
fn tiles_to_u8(tiles: Vec<Vec<i32>>) -> (r: Vec<Vec<u8>>)
    ensures
        r@.len() == tiles@.len(),
        forall|t: int| 0 <= t < tiles@.len() ==> #[trigger] r@[t]@ == tiles@[t]@.map_values(|v: i32| v as u8),
{
    let mut out: Vec<Vec<u8>> = Vec::new();
    let mut t: usize = 0;
    while t < tiles.len()
        invariant
            t <= tiles@.len(),
            out@.len() == t,
            forall|j: int| 0 <= j < t ==> #[trigger] out@[j]@ == tiles@[j]@.map_values(|v: i32| v as u8),
        decreases tiles@.len() - t,
    {
        let src = &tiles[t];
        let mut v: Vec<u8> = Vec::new();
        let mut i: usize = 0;
        while i < src.len()
            invariant
                i <= src@.len(),
                v@ == src@.subrange(0, i as int).map_values(|x: i32| x as u8),
            decreases src@.len() - i,
        {
            v.push(src[i] as u8);
            i += 1;
            assert(v@ =~= src@.subrange(0, i as int).map_values(|x: i32| x as u8));
        }
        assert(src@.subrange(0, src@.len() as int) =~= src@);
        out.push(v);
        t += 1;
    }
    out
}

/// Each tile's values narrowed to 16 bits (`as i16`).
fn tiles_to_i16(tiles: Vec<Vec<i32>>) -> (r: Vec<Vec<i16>>)
    ensures
        r@.len() == tiles@.len(),
        forall|t: int| 0 <= t < tiles@.len() ==> #[trigger] r@[t]@ == tiles@[t]@.map_values(|v: i32| v as i16),
{
    let mut out: Vec<Vec<i16>> = Vec::new();
    let mut t: usize = 0;
    while t < tiles.len()
        invariant
            t <= tiles@.len(),
            out@.len() == t,
            forall|j: int| 0 <= j < t ==> #[trigger] out@[j]@ == tiles@[j]@.map_values(|v: i32| v as i16),
        decreases tiles@.len() - t,
    {
        let src = &tiles[t];
        let mut v: Vec<i16> = Vec::new();
        let mut i: usize = 0;
        while i < src.len()
            invariant
                i <= src@.len(),
                v@ == src@.subrange(0, i as int).map_values(|x: i32| x as i16),
            decreases src@.len() - i,
        {
            v.push(src[i] as i16);
            i += 1;
            assert(v@ =~= src@.subrange(0, i as int).map_values(|x: i32| x as i16));
        }
        assert(src@.subrange(0, src@.len() as int) =~= src@);
        out.push(v);
        t += 1;
    }
    out
}

/// Each tile's values widened to 64 bits.
fn tiles_to_i64(tiles: Vec<Vec<i32>>) -> (r: Vec<Vec<i64>>)
    ensures
        r@.len() == tiles@.len(),
        forall|t: int| 0 <= t < tiles@.len() ==> #[trigger] r@[t]@ == tiles@[t]@.map_values(|v: i32| v as i64),
{
    let mut out: Vec<Vec<i64>> = Vec::new();
    let mut t: usize = 0;
    while t < tiles.len()
        invariant
            t <= tiles@.len(),
            out@.len() == t,
            forall|j: int| 0 <= j < t ==> #[trigger] out@[j]@ == tiles@[j]@.map_values(|v: i32| v as i64),
        decreases tiles@.len() - t,
    {
        let src = &tiles[t];
        let mut v: Vec<i64> = Vec::new();
        let mut i: usize = 0;
        while i < src.len()
            invariant
                i <= src@.len(),
                v@ == src@.subrange(0, i as int).map_values(|x: i32| x as i64),
            decreases src@.len() - i,
        {
            v.push(src[i] as i64);
            i += 1;
            assert(v@ =~= src@.subrange(0, i as int).map_values(|x: i32| x as i64));
        }
        assert(src@.subrange(0, src@.len() as int) =~= src@);
        out.push(v);
        t += 1;
    }
    out
}

// ── GZIP tile contents ──

/// The big-endian signed 32-bit values of the whole 4-byte chunks.
pub open spec fn be_i32s(raw: Seq<u8>) -> Seq<i32> {
    Seq::new(raw.len() / 4, |i: int| to_signed(be_uint(raw.subrange(4 * i, 4 * i + 4), 4), 32) as i32)
}

/// The big-endian signed 16-bit values of the whole 2-byte chunks.
pub open spec fn be_i16s(raw: Seq<u8>) -> Seq<i16> {
    Seq::new(raw.len() / 2, |i: int| to_signed(be_uint(raw.subrange(2 * i, 2 * i + 2), 2), 16) as i16)
}

/// The big-endian signed 64-bit values of the whole 8-byte chunks.
pub open spec fn be_i64s(raw: Seq<u8>) -> Seq<i64> {
    Seq::new(raw.len() / 8, |i: int| to_signed(be_uint(raw.subrange(8 * i, 8 * i + 8), 8), 64) as i64)
}

/// The big-endian 32-bit patterns of the whole 4-byte chunks.
pub open spec fn be_u32s(raw: Seq<u8>) -> Seq<u32> {
    Seq::new(raw.len() / 4, |i: int| be_uint(raw.subrange(4 * i, 4 * i + 4), 4) as u32)
}

/// The big-endian 64-bit patterns of the whole 8-byte chunks.
pub open spec fn be_u64s(raw: Seq<u8>) -> Seq<u64> {
    Seq::new(raw.len() / 8, |i: int| be_uint(raw.subrange(8 * i, 8 * i + 8), 8) as u64)
}

/// An 8-bit GZIP tile of `n` pixels: 32-bit values narrowed when the tile
/// holds four bytes per pixel, else the bytes themselves.
pub open spec fn gzip_tile_u8(raw: Seq<u8>, n: int) -> Seq<u8> {
    if raw.len() == n * 4 { be_i32s(raw).map_values(|v: i32| v as u8) } else { raw }
}

/// A 16-bit GZIP tile of `n` pixels: 32-bit values narrowed when the tile
/// holds four bytes per pixel, else 16-bit values.
pub open spec fn gzip_tile_i16(raw: Seq<u8>, n: int) -> Seq<i16> {
    if raw.len() == n * 4 { be_i32s(raw).map_values(|v: i32| v as i16) } else { be_i16s(raw) }
}

proof fn lemma_be_i32s(data: Seq<u8>, r: Seq<i32>)
    requires
        r.len() == data.len() / 4,
        forall|i: int| 0 <= i < r.len() ==> #[trigger] r[i] as int == to_signed(be_uint(data.subrange(4 * i, 4 * i + 4), 4), 32),
    ensures
        r == be_i32s(data),
{
    assert(r =~= be_i32s(data));
}

/// The tiles' bytes as 8-bit pixels.
fn gzip_tiles_u8(tiles: Vec<Vec<u8>>, grid: &TileGrid) -> (r: Vec<Vec<u8>>)
    requires
        grid@.wf(),
    ensures
        r@.len() == tiles@.len(),
        forall|t: int| 0 <= t < tiles@.len() ==> #[trigger] r@[t]@ == gzip_tile_u8(tiles@[t]@, product(grid@.spec_extent(t))),
{
    let mut out: Vec<Vec<u8>> = Vec::new();
    let mut t: usize = 0;
    while t < tiles.len()
        invariant
            t <= tiles@.len(),
            grid@.wf(),
            out@.len() == t,
            forall|j: int| 0 <= j < t ==> #[trigger] out@[j]@ == gzip_tile_u8(tiles@[j]@, product(grid@.spec_extent(j))),
        decreases tiles@.len() - t,
    {
        let raw = &tiles[t];
        let n = grid.tile_pixels(t);
        let rl = raw.len();
        if n <= usize::MAX / 4 && rl == n * 4 {
            let vals = bytes_to_i32(raw.as_slice());
            proof { lemma_be_i32s(raw@, vals@); }
            let mut v: Vec<u8> = Vec::new();
            let mut i: usize = 0;
            while i < vals.len()
                invariant
                    i <= vals@.len(),
                    v@ == vals@.subrange(0, i as int).map_values(|x: i32| x as u8),
                decreases vals@.len() - i,
            {
                v.push(vals[i] as u8);
                i += 1;
                assert(v@ =~= vals@.subrange(0, i as int).map_values(|x: i32| x as u8));
            }
            assert(vals@.subrange(0, vals@.len() as int) =~= vals@);
            assert(v@ =~= be_i32s(raw@).map_values(|v: i32| v as u8));
            out.push(v);
        } else {
            out.push(vstd::slice::slice_to_vec(raw.as_slice()));
        }
        t += 1;
    }
    out
}

/// The tiles' bytes as 16-bit pixels.
fn gzip_tiles_i16(tiles: Vec<Vec<u8>>, grid: &TileGrid) -> (r: Vec<Vec<i16>>)
    requires
        grid@.wf(),
    ensures
        r@.len() == tiles@.len(),
        forall|t: int| 0 <= t < tiles@.len() ==> #[trigger] r@[t]@ == gzip_tile_i16(tiles@[t]@, product(grid@.spec_extent(t))),
{
    let mut out: Vec<Vec<i16>> = Vec::new();
    let mut t: usize = 0;
    while t < tiles.len()
        invariant
            t <= tiles@.len(),
            grid@.wf(),
            out@.len() == t,
            forall|j: int| 0 <= j < t ==> #[trigger] out@[j]@ == gzip_tile_i16(tiles@[j]@, product(grid@.spec_extent(j))),
        decreases tiles@.len() - t,
    {
        let raw = &tiles[t];
        let n = grid.tile_pixels(t);
        let rl = raw.len();
        if n <= usize::MAX / 4 && rl == n * 4 {
            let vals = bytes_to_i32(raw.as_slice());
            proof { lemma_be_i32s(raw@, vals@); }
            let mut v: Vec<i16> = Vec::new();
            let mut i: usize = 0;
            while i < vals.len()
                invariant
                    i <= vals@.len(),
                    v@ == vals@.subrange(0, i as int).map_values(|x: i32| x as i16),
                decreases vals@.len() - i,
            {
                v.push(vals[i] as i16);
                i += 1;
                assert(v@ =~= vals@.subrange(0, i as int).map_values(|x: i32| x as i16));
            }
            assert(vals@.subrange(0, vals@.len() as int) =~= vals@);
            assert(v@ =~= be_i32s(raw@).map_values(|v: i32| v as i16));
            out.push(v);
        } else {
            let vals = bytes_to_i16(raw.as_slice());
            assert(vals@ =~= be_i16s(raw@));
            out.push(vals);
        }
        t += 1;
    }
    out
}

/// The tiles' bytes as 32-bit pixels.
fn gzip_tiles_i32(tiles: Vec<Vec<u8>>) -> (r: Vec<Vec<i32>>)
    ensures
        r@.len() == tiles@.len(),
        forall|t: int| 0 <= t < tiles@.len() ==> #[trigger] r@[t]@ == be_i32s(tiles@[t]@),
{
    let mut out: Vec<Vec<i32>> = Vec::new();
    let mut t: usize = 0;
    while t < tiles.len()
        invariant
            t <= tiles@.len(),
            out@.len() == t,
            forall|j: int| 0 <= j < t ==> #[trigger] out@[j]@ == be_i32s(tiles@[j]@),
        decreases tiles@.len() - t,
    {
        let vals = bytes_to_i32(tiles[t].as_slice());
        proof { lemma_be_i32s(tiles@[t as int]@, vals@); }
        out.push(vals);
        t += 1;
    }
    out
}

/// The tiles' bytes as 64-bit pixels.
fn gzip_tiles_i64(tiles: Vec<Vec<u8>>) -> (r: Vec<Vec<i64>>)
    ensures
        r@.len() == tiles@.len(),
        forall|t: int| 0 <= t < tiles@.len() ==> #[trigger] r@[t]@ == be_i64s(tiles@[t]@),
{
    let mut out: Vec<Vec<i64>> = Vec::new();
    let mut t: usize = 0;
    while t < tiles.len()
        invariant
            t <= tiles@.len(),
            out@.len() == t,
            forall|j: int| 0 <= j < t ==> #[trigger] out@[j]@ == be_i64s(tiles@[j]@),
        decreases tiles@.len() - t,
    {
        let vals = bytes_to_i64(tiles[t].as_slice());
        assert(vals@ =~= be_i64s(tiles@[t as int]@));
        out.push(vals);
        t += 1;
    }
    out
}

/// The tiles' bytes as the bit patterns of `f32` pixels.
fn gzip_tiles_f32(tiles: Vec<Vec<u8>>) -> (r: Vec<Vec<u32>>)
    ensures
        r@.len() == tiles@.len(),
        forall|t: int| 0 <= t < tiles@.len() ==> #[trigger] r@[t]@ == be_u32s(tiles@[t]@),
{
    let mut out: Vec<Vec<u32>> = Vec::new();
    let mut t: usize = 0;
    while t < tiles.len()
        invariant
            t <= tiles@.len(),
            out@.len() == t,
            forall|j: int| 0 <= j < t ==> #[trigger] out@[j]@ == be_u32s(tiles@[j]@),
        decreases tiles@.len() - t,
    {
        let vals = bytes_to_f32(tiles[t].as_slice());
        assert(vals@ =~= be_u32s(tiles@[t as int]@));
        out.push(vals);
        t += 1;
    }
    out
}

/// The tiles' bytes as the bit patterns of `f64` pixels.
fn gzip_tiles_f64(tiles: Vec<Vec<u8>>) -> (r: Vec<Vec<u64>>)
    ensures
        r@.len() == tiles@.len(),
        forall|t: int| 0 <= t < tiles@.len() ==> #[trigger] r@[t]@ == be_u64s(tiles@[t]@),
{
    let mut out: Vec<Vec<u64>> = Vec::new();
    let mut t: usize = 0;
    while t < tiles.len()
        invariant
            t <= tiles@.len(),
            out@.len() == t,
            forall|j: int| 0 <= j < t ==> #[trigger] out@[j]@ == be_u64s(tiles@[j]@),
        decreases tiles@.len() - t,
    {
        let vals = bytes_to_f64(tiles[t].as_slice());
        assert(vals@ =~= be_u64s(tiles@[t as int]@));
        out.push(vals);
        t += 1;
    }
    out
}

// ── Whole compressed images ──

/// The Rice parameters that `RiceParams::for_bytepix` gives for 1, 2 or 4
/// bytes per pixel.
pub open spec fn rice_params(bytepix: usize) -> RiceParams {
    if bytepix == 1 {
        RiceParams { fsbits: 3, fsmax: 6, bbits: 8, bytes_per_val: 1 }
    } else if bytepix == 2 {
        RiceParams { fsbits: 4, fsmax: 14, bbits: 16, bytes_per_val: 2 }
    } else {
        RiceParams { fsbits: 5, fsmax: 25, bbits: 32, bytes_per_val: 4 }
    }
}

/// The compression algorithm's name (`ZCMPTYPE`) of a compressed image.
pub open spec fn compression_name(info: HduInfoModel) -> Seq<char> {
    match info {
        HduInfoModel::CompressedImage { zcmptype, .. } => zcmptype,
        _ => Seq::empty(),
    }
}

/// Whether the algorithm's name holds `RICE`, and whether it holds `GZIP`.
fn compression_kinds(hdu: &Hdu) -> (r: (bool, bool))
    ensures
        r.0 == has_substring(compression_name(hdu.info@), "RICE"@),
        r.1 == has_substring(compression_name(hdu.info@), "GZIP"@),
{
    match &hdu.info {
        HduInfo::CompressedImage { zcmptype, .. } => (contains_text(zcmptype.as_str(), "RICE"), contains_text(zcmptype.as_str(), "GZIP")),
        _ => {
            proof {
                reveal_strlit("RICE");
                reveal_strlit("GZIP");
                assert(!has_substring(Seq::<char>::empty(), "RICE"@));
                assert(!has_substring(Seq::<char>::empty(), "GZIP"@));
            }
            (false, false)
        },
    }
}

/// The tiled image stores floating-point pixels as scaled integers
/// (ZSCALE and ZZERO columns), which are turned into floats by arithmetic
/// on them.
pub open spec fn is_quantized(zbitpix: i64, zs: Option<int>, zz: Option<int>) -> bool {
    (zbitpix == -32 || zbitpix == -64) && zs is Some && zz is Some
}

/// The number of tiles read: one per table row, at most as many as the grid
/// has.
pub open spec fn tiles_read(g: GridModel, naxis2: usize) -> nat {
    (if g.spec_len() <= naxis2 { g.spec_len() } else { naxis2 as int }) as nat
}

/// Each tile's values narrowed to 8 bits.
pub open spec fn tiles_u8(ts: Seq<Seq<i32>>) -> Seq<Seq<u8>> {
    Seq::new(ts.len(), |t: int| ts[t].map_values(|v: i32| v as u8))
}

/// Each tile's values narrowed to 16 bits.
pub open spec fn tiles_i16(ts: Seq<Seq<i32>>) -> Seq<Seq<i16>> {
    Seq::new(ts.len(), |t: int| ts[t].map_values(|v: i32| v as i16))
}

/// Each tile's values widened to 64 bits.
pub open spec fn tiles_i64(ts: Seq<Seq<i32>>) -> Seq<Seq<i64>> {
    Seq::new(ts.len(), |t: int| ts[t].map_values(|v: i32| v as i64))
}

/// GZIP tiles read as 8-bit pixels.
pub open spec fn gzip_tiles_u8_spec(g: GridModel, ts: Seq<Seq<u8>>) -> Seq<Seq<u8>> {
    Seq::new(ts.len(), |t: int| gzip_tile_u8(ts[t], product(g.spec_extent(t))))
}

/// GZIP tiles read as 16-bit pixels.
pub open spec fn gzip_tiles_i16_spec(g: GridModel, ts: Seq<Seq<u8>>) -> Seq<Seq<i16>> {
    Seq::new(ts.len(), |t: int| gzip_tile_i16(ts[t], product(g.spec_extent(t))))
}

/// GZIP tiles read as 32-bit pixels.
pub open spec fn gzip_tiles_i32_spec(ts: Seq<Seq<u8>>) -> Seq<Seq<i32>> {
    Seq::new(ts.len(), |t: int| be_i32s(ts[t]))
}

/// GZIP tiles read as 64-bit pixels.
pub open spec fn gzip_tiles_i64_spec(ts: Seq<Seq<u8>>) -> Seq<Seq<i64>> {
    Seq::new(ts.len(), |t: int| be_i64s(ts[t]))
}

/// GZIP tiles read as the bit patterns of `f32` pixels.
pub open spec fn gzip_tiles_f32_spec(ts: Seq<Seq<u8>>) -> Seq<Seq<u32>> {
    Seq::new(ts.len(), |t: int| be_u32s(ts[t]))
}

/// GZIP tiles read as the bit patterns of `f64` pixels.
pub open spec fn gzip_tiles_f64_spec(ts: Seq<Seq<u8>>) -> Seq<Seq<u64>> {
    Seq::new(ts.len(), |t: int| be_u64s(ts[t]))
}

/// The views of a vector of tiles.
pub open spec fn tiles_view<T>(ts: Seq<Vec<T>>) -> Seq<Seq<T>> {
    Seq::new(ts.len(), |i: int| ts[i]@)
}

proof fn lemma_rice_tiles_len(
    fits: Seq<u8>, ds: int, n1: int, n2: int, comp: int, g: GridModel, blocksize: nat, prm: RiceParams, k: nat,
)
    ensures
        spec_rice_tiles(fits, ds, n1, n2, comp, g, blocksize, prm, k) matches Ok(ts) ==> ts.len() == k,
    decreases k,
{
    if k > 0 {
        lemma_rice_tiles_len(fits, ds, n1, n2, comp, g, blocksize, prm, (k - 1) as nat);
    }
}

proof fn lemma_gzip_tiles_len(fits: Seq<u8>, ds: int, n1: int, n2: int, comp: int, k: nat)
    ensures
        spec_gzip_tiles(fits, ds, n1, n2, comp, k) matches Ok(ts) ==> ts.len() == k,
    decreases k,
{
    if k > 0 {
        lemma_gzip_tiles_len(fits, ds, n1, n2, comp, (k - 1) as nat);
    }
}

/// The pixels of a tile-compressed image HDU. Floating-point images stored
/// as scaled integers are not decoded here (`UnsupportedCompression`): their
/// pixels come from floating-point arithmetic on the integers.
pub open spec fn spec_read_tiled_image(fits: Seq<u8>, hdu: HduModel) -> core::result::Result<ImageValues, Error> {
    match hdu.info {
        HduInfoModel::CompressedImage { zbitpix, znaxes, ztile, blocksize, rice_bytepix, naxis1, naxis2, tfields, .. } => {
            let total = pixel_count(znaxes);
            if total == 0 {
                spec_decode_pixels(Seq::empty(), zbitpix)
            } else {
                match spec_column_layout(hdu.cards, tfields as nat) {
                    Err(e) => Err(e),
                    Ok((comp, zs, zz)) => {
                        let rice = has_substring(compression_name(hdu.info), "RICE"@);
                        let gzip = has_substring(compression_name(hdu.info), "GZIP"@);
                        let g = grid_model(znaxes, ztile);
                        let k = tiles_read(g, naxis2);
                        let ds = hdu.data_start;
                        if !rice && !gzip {
                            Err(Error::UnsupportedCompression("only RICE_1 and GZIP_1 supported"))
                        } else if rice {
                            if !(rice_bytepix == 1 || rice_bytepix == 2 || rice_bytepix == 4) {
                                Err(Error::UnsupportedCompression("unsupported Rice bytepix"))
                            } else if is_quantized(zbitpix, zs, zz) {
                                Err(Error::UnsupportedCompression("quantized floating-point tiles"))
                            } else if !(zbitpix == 8 || zbitpix == 16 || zbitpix == 32 || zbitpix == 64) {
                                Err(Error::InvalidBitpix(zbitpix))
                            } else {
                                match spec_rice_tiles(fits, ds, naxis1 as int, naxis2 as int, comp, g, blocksize as nat, rice_params(rice_bytepix), k) {
                                    Err(e) => Err(e),
                                    Ok(ts) => Ok(
                                        if zbitpix == 8 {
                                            ImageValues::U8(scattered(g, tiles_u8(ts), Seq::new(total as nat, |i: int| 0u8), k))
                                        } else if zbitpix == 16 {
                                            ImageValues::I16(scattered(g, tiles_i16(ts), Seq::new(total as nat, |i: int| 0i16), k))
                                        } else if zbitpix == 32 {
                                            ImageValues::I32(scattered(g, ts, Seq::new(total as nat, |i: int| 0i32), k))
                                        } else {
                                            ImageValues::I64(scattered(g, tiles_i64(ts), Seq::new(total as nat, |i: int| 0i64), k))
                                        }
                                    ),
                                }
                            }
                        } else if is_quantized(zbitpix, zs, zz) {
                            Err(Error::UnsupportedCompression("quantized floating-point tiles"))
                        } else if !is_valid_bitpix(zbitpix) {
                            Err(Error::InvalidBitpix(zbitpix))
                        } else {
                            match spec_gzip_tiles(fits, ds, naxis1 as int, naxis2 as int, comp, k) {
                                Err(e) => Err(e),
                                Ok(ts) => Ok(
                                    if zbitpix == 8 {
                                        ImageValues::U8(scattered(g, gzip_tiles_u8_spec(g, ts), Seq::new(total as nat, |i: int| 0u8), k))
                                    } else if zbitpix == 16 {
                                        ImageValues::I16(scattered(g, gzip_tiles_i16_spec(g, ts), Seq::new(total as nat, |i: int| 0i16), k))
                                    } else if zbitpix == 32 {
                                        ImageValues::I32(scattered(g, gzip_tiles_i32_spec(ts), Seq::new(total as nat, |i: int| 0i32), k))
                                    } else if zbitpix == 64 {
                                        ImageValues::I64(scattered(g, gzip_tiles_i64_spec(ts), Seq::new(total as nat, |i: int| 0i64), k))
                                    } else if zbitpix == -32 {
                                        ImageValues::F32(scattered(g, gzip_tiles_f32_spec(ts), Seq::new(total as nat, |i: int| 0u32), k))
                                    } else {
                                        ImageValues::F64(scattered(g, gzip_tiles_f64_spec(ts), Seq::new(total as nat, |i: int| 0u64), k))
                                    }
                                ),
                            }
                        }
                    },
                }
            }
        },
        _ => Err(Error::InvalidHeader),
    }
}

/// Reading a tile-compressed image neither overflows nor runs past its
/// data, and its Rice runs are of a size the decoder handles (what is read
/// of the tiles matters only for an image with pixels).
pub open spec fn tiled_readable(data_len: int, hdu: HduModel) -> bool {
    match hdu.info {
        HduInfoModel::CompressedImage { znaxes, ztile, blocksize, naxis1, naxis2, tfields, .. } => {
            &&& prefix_products_fit(1, znaxes)
            &&& tforms_sliceable(hdu.cards, tfields as nat)
            &&& layout_fits(hdu.cards, tfields as nat)
            &&& data_len < 0x0100_0000_0000_0000
            &&& (pixel_count(znaxes) > 0 ==> (spec_column_layout(hdu.cards, tfields as nat) matches Ok((comp, _, _)) ==>
                tiles_addressable(hdu.data_start, naxis1 as int, naxis2 as int, comp,
                    tiles_read(grid_model(znaxes, ztile), naxis2) as int)))
            &&& (has_substring(compression_name(hdu.info), "RICE"@) ==> {
                &&& 0 < blocksize <= i32::MAX
                &&& (pixel_count(znaxes) > 0 ==> forall|t: int| 0 <= t ==> #[trigger] product(grid_model(znaxes, ztile).spec_extent(t)) <= i32::MAX)
            })
        },
        _ => true,
    }
}

/// A product of positive numbers; a positive product has positive factors.
proof fn lemma_product_positive(s: Seq<usize>)
    requires
        product(s) > 0,
    ensures
        forall|i: int| 0 <= i < s.len() ==> #[trigger] s[i] > 0,
    decreases s.len(),
{
    if s.len() > 0 {
        crate::primary::lemma_product_nonneg(s.drop_last());
        assert(product(s.drop_last()) > 0 && s.last() > 0) by (nonlinear_arith)
            requires product(s.drop_last()) * s.last() > 0, product(s.drop_last()) >= 0;
        lemma_product_positive(s.drop_last());
        assert forall|i: int| 0 <= i < s.len() implies #[trigger] s[i] > 0 by {
            if i < s.len() - 1 {
                assert(s[i] == s.drop_last()[i]);
            }
        }
    }
}

/// Read and decompress a tile-compressed FITS image.
///
/// The HDU must have `HduInfo::CompressedImage`. This function extracts
/// each compressed tile from the binary table heap, decompresses it, and
/// reassembles the full image. Floating-point images stored as scaled
/// integers are reported as `UnsupportedCompression`: see
/// [`read_quantized_tiles`] for their integers and scales.
pub fn read_tiled_image(fits_data: &[u8], hdu: &Hdu) -> (r: Result<ImageData>)
    requires
        tiled_readable(fits_data@.len() as int, hdu@),
    ensures
        r matches Ok(d) ==> spec_read_tiled_image(fits_data@, hdu@) == Ok::<ImageValues, Error>(d@),
        r matches Err(e) ==> spec_read_tiled_image(fits_data@, hdu@) == Err::<ImageValues, Error>(e),
{
    let (zbitpix, znaxes, ztile, blocksize, rice_bytepix, naxis1, naxis2, tfields) = match &hdu.info {
        HduInfo::CompressedImage { zbitpix, znaxes, ztile, blocksize, rice_bytepix, naxis1, naxis2, tfields, .. } =>
            (*zbitpix, znaxes, ztile, *blocksize, *rice_bytepix, *naxis1, *naxis2, *tfields),
        _ => return Err(Error::InvalidHeader),
    };
    let total: usize = if znaxes.len() == 0 { 0 } else { crate::primary::scaled_product(1, znaxes.as_slice()) };
    if total == 0 {
        let empty: [u8; 0] = [];
        assert(empty@ =~= Seq::<u8>::empty());
        return decode_pixels(&empty, zbitpix);
    }
    let col_info = parse_column_layout(hdu.cards.as_slice(), tfields)?;
    let (is_rice, is_gzip) = compression_kinds(hdu);
    if !is_rice && !is_gzip {
        return Err(Error::UnsupportedCompression("only RICE_1 and GZIP_1 supported"));
    }
    proof {
        lemma_product_positive(znaxes@);
    }
    let grid = TileGrid::new(znaxes.as_slice(), ztile.as_slice());
    let glen = grid.len();
    let ntiles = if glen <= naxis2 { glen } else { naxis2 };
    let quantized = (zbitpix == -32 || zbitpix == -64) && col_info.zscale_offset.is_some() && col_info.zzero_offset.is_some();
    let ds = hdu.data_start;
    let comp = col_info.compressed_data_offset;
    if is_rice {
        let params = RiceParams::for_bytepix(rice_bytepix)?;
        assert(params == rice_params(rice_bytepix));
        if quantized {
            return Err(Error::UnsupportedCompression("quantized floating-point tiles"));
        }
        if !(zbitpix == 8 || zbitpix == 16 || zbitpix == 32 || zbitpix == 64) {
            return Err(Error::InvalidBitpix(zbitpix));
        }
        let tiles = decode_rice_tiles(fits_data, ds, naxis1, naxis2, comp, &grid, blocksize, &params, ntiles)?;
        assert(ntiles == tiles_read(grid_model(znaxes@, ztile@), naxis2));
        assert(grid@ == grid_model(znaxes@, ztile@));
        assert(total == pixel_count(znaxes@));
        proof {
            lemma_rice_tiles_len(fits_data@, ds as int, naxis1 as int, naxis2 as int, comp as int, grid@, blocksize as nat, params, ntiles as nat);
            assert(Seq::new(tiles@.len(), |i: int| tiles@[i]@) =~= tiles_view(tiles@));
        }
        if zbitpix == 8 {
            let ghost ts = tiles_view(tiles@);
            let conv = tiles_to_u8(tiles);
            assert(tiles_view(conv@) =~= tiles_u8(ts));
            let out = scatter(&grid, &conv, total, 0u8);
            assert(spec_read_tiled_image(fits_data@, hdu@) == Ok::<ImageValues, Error>(ImageData::U8(out)@));
            Ok(ImageData::U8(out))
        } else if zbitpix == 16 {
            let ghost ts = tiles_view(tiles@);
            let conv = tiles_to_i16(tiles);
            assert(tiles_view(conv@) =~= tiles_i16(ts));
            let out = scatter(&grid, &conv, total, 0i16);
            assert(spec_read_tiled_image(fits_data@, hdu@) == Ok::<ImageValues, Error>(ImageData::I16(out)@));
            Ok(ImageData::I16(out))
        } else if zbitpix == 32 {
            let out = scatter(&grid, &tiles, total, 0i32);
            assert(spec_read_tiled_image(fits_data@, hdu@) == Ok::<ImageValues, Error>(ImageData::I32(out)@));
            Ok(ImageData::I32(out))
        } else {
            let ghost ts = tiles_view(tiles@);
            let conv = tiles_to_i64(tiles);
            assert(tiles_view(conv@) =~= tiles_i64(ts));
            let out = scatter(&grid, &conv, total, 0i64);
            assert(spec_read_tiled_image(fits_data@, hdu@) == Ok::<ImageValues, Error>(ImageData::I64(out)@));
            Ok(ImageData::I64(out))
        }
    } else {
        if quantized {
            return Err(Error::UnsupportedCompression("quantized floating-point tiles"));
        }
        if !crate::primary::valid_bitpix(zbitpix) {
            return Err(Error::InvalidBitpix(zbitpix));
        }
        let tiles = decode_gzip_tiles(fits_data, ds, naxis1, naxis2, comp, ntiles)?;
        proof {
            lemma_gzip_tiles_len(fits_data@, ds as int, naxis1 as int, naxis2 as int, comp as int, ntiles as nat);
            assert(Seq::new(tiles@.len(), |i: int| tiles@[i]@) =~= tiles_view(tiles@));
        }
        let ghost ts = tiles_view(tiles@);
        if zbitpix == 8 {
            let conv = gzip_tiles_u8(tiles, &grid);
            assert(tiles_view(conv@) =~= gzip_tiles_u8_spec(grid@, ts));
            let out = scatter(&grid, &conv, total, 0u8);
            assert(spec_read_tiled_image(fits_data@, hdu@) == Ok::<ImageValues, Error>(ImageData::U8(out)@));
            Ok(ImageData::U8(out))
        } else if zbitpix == 16 {
            let conv = gzip_tiles_i16(tiles, &grid);
            assert(tiles_view(conv@) =~= gzip_tiles_i16_spec(grid@, ts));
            let out = scatter(&grid, &conv, total, 0i16);
            assert(spec_read_tiled_image(fits_data@, hdu@) == Ok::<ImageValues, Error>(ImageData::I16(out)@));
            Ok(ImageData::I16(out))
        } else if zbitpix == 32 {
            let conv = gzip_tiles_i32(tiles);
            assert(tiles_view(conv@) =~= gzip_tiles_i32_spec(ts));
            let out = scatter(&grid, &conv, total, 0i32);
            assert(spec_read_tiled_image(fits_data@, hdu@) == Ok::<ImageValues, Error>(ImageData::I32(out)@));
            Ok(ImageData::I32(out))
        } else if zbitpix == 64 {
            let conv = gzip_tiles_i64(tiles);
            assert(tiles_view(conv@) =~= gzip_tiles_i64_spec(ts));
            let out = scatter(&grid, &conv, total, 0i64);
            assert(spec_read_tiled_image(fits_data@, hdu@) == Ok::<ImageValues, Error>(ImageData::I64(out)@));
            Ok(ImageData::I64(out))
        } else if zbitpix == -32 {
            let conv = gzip_tiles_f32(tiles);
            assert(tiles_view(conv@) =~= gzip_tiles_f32_spec(ts));
            let out = scatter(&grid, &conv, total, 0u32);
            assert(spec_read_tiled_image(fits_data@, hdu@) == Ok::<ImageValues, Error>(ImageData::F32(out)@));
            Ok(ImageData::F32(out))
        } else {
            let conv = gzip_tiles_f64(tiles);
            assert(tiles_view(conv@) =~= gzip_tiles_f64_spec(ts));
            let out = scatter(&grid, &conv, total, 0u64);
            assert(spec_read_tiled_image(fits_data@, hdu@) == Ok::<ImageValues, Error>(ImageData::F64(out)@));
            Ok(ImageData::F64(out))
        }
    }
}

// ── Scaled-integer (quantized) floating-point tiles ──

/// The ZSCALE and ZZERO of a tile's table row, as the bit patterns of their
/// big-endian `f64` values.
pub fn read_zscale_zzero(
    fits_data: &[u8],
    data_start: usize,
    naxis1: usize,
    row: usize,
    zscale_offset: usize,
    zzero_offset: usize,
) -> (r: (u64, u64))
    requires
        data_start + row * naxis1 + zscale_offset + 8 <= fits_data@.len(),
        data_start + row * naxis1 + zzero_offset + 8 <= fits_data@.len(),
    ensures
        r.0 == be_uint(fits_data@.subrange(data_start + row * naxis1 + zscale_offset, fits_data@.len() as int), 8),
        r.1 == be_uint(fits_data@.subrange(data_start + row * naxis1 + zzero_offset, fits_data@.len() as int), 8),
{
    let dl = fits_data.len();
    proof {
        assert(row * naxis1 >= 0) by (nonlinear_arith);
    }
    let row_start = data_start + row * naxis1;
    let a = row_start + zscale_offset;
    let b = row_start + zzero_offset;
    let scale = crate::endian::read_u64_be(vstd::slice::slice_subrange(fits_data, a, fits_data.len()));
    let zero = crate::endian::read_u64_be(vstd::slice::slice_subrange(fits_data, b, fits_data.len()));
    (scale, zero)
}

/// The integers and scales of a quantized floating-point tiled image: the
/// image's tile grid and size, each tile's decoded integers, and each
/// tile's (ZSCALE, ZZERO) as `f64` bit patterns. A pixel's value is
/// `ZZERO + ZSCALE * integer`, computed in floating point.
pub struct QuantizedTiles {
    pub grid: TileGrid,
    pub total_pixels: usize,
    pub values: Vec<Vec<i32>>,
    pub scales: Vec<(u64, u64)>,
}

/// The decoded integers of the tiles `0..k` of a quantized image: Rice
/// decoded, or GZIP inflated and read as big-endian 32-bit values.
pub open spec fn spec_quantized_values(fits: Seq<u8>, hdu: HduModel) -> core::result::Result<Seq<Seq<i32>>, Error> {
    match hdu.info {
        HduInfoModel::CompressedImage { znaxes, ztile, blocksize, rice_bytepix, naxis1, naxis2, tfields, .. } => {
            match spec_column_layout(hdu.cards, tfields as nat) {
                Err(e) => Err(e),
                Ok((comp, _, _)) => {
                    let g = grid_model(znaxes, ztile);
                    let k = tiles_read(g, naxis2);
                    if has_substring(compression_name(hdu.info), "RICE"@) {
                        spec_rice_tiles(fits, hdu.data_start, naxis1 as int, naxis2 as int, comp, g, blocksize as nat, rice_params(rice_bytepix), k)
                    } else {
                        match spec_gzip_tiles(fits, hdu.data_start, naxis1 as int, naxis2 as int, comp, k) {
                            Err(e) => Err(e),
                            Ok(ts) => Ok(gzip_tiles_i32_spec(ts)),
                        }
                    }
                },
            }
        },
        _ => Err(Error::InvalidHeader),
    }
}

/// The (ZSCALE, ZZERO) bit patterns of table rows `0..k`.
pub open spec fn spec_scales(fits: Seq<u8>, ds: int, n1: int, zs: int, zz: int, k: nat) -> Seq<(u64, u64)> {
    Seq::new(k, |t: int| (
        be_uint(fits.subrange(ds + t * n1 + zs, fits.len() as int), 8) as u64,
        be_uint(fits.subrange(ds + t * n1 + zz, fits.len() as int), 8) as u64,
    ))
}

/// The image is quantized, and the ZSCALE and ZZERO of each tile read lie
/// inside the data.
pub open spec fn quantized_readable(data_len: int, hdu: HduModel) -> bool {
    match hdu.info {
        HduInfoModel::CompressedImage { znaxes, ztile, naxis1, naxis2, tfields, .. } => {
            match spec_column_layout(hdu.cards, tfields as nat) {
                Ok((_, Some(zs), Some(zz))) => forall|t: int| 0 <= t < tiles_read(grid_model(znaxes, ztile), naxis2) ==>
                    hdu.data_start + #[trigger] (t * naxis1) + zs + 8 <= data_len && hdu.data_start + t * naxis1 + zz + 8 <= data_len,
                _ => false,
            }
        },
        _ => false,
    }
}

/// What `read_quantized_tiles` gives: the tiles' integers, the image's
/// grid and size, and each tile's scales.
pub open spec fn quantized_result(
    fits: Seq<u8>, hdu: HduModel, g: GridModel, total: usize, values: Seq<Seq<i32>>, scales: Seq<(u64, u64)>,
) -> bool {
    &&& spec_quantized_values(fits, hdu) == Ok::<Seq<Seq<i32>>, Error>(values)
    &&& g.wf()
    &&& g.dims.len() > 0
    &&& match hdu.info {
        HduInfoModel::CompressedImage { znaxes, ztile, naxis1, tfields, .. } => {
            &&& g == grid_model(znaxes, ztile)
            &&& total == pixel_count(znaxes)
            &&& match spec_column_layout(hdu.cards, tfields as nat) {
                Ok((_, Some(zs), Some(zz))) => scales == spec_scales(fits, hdu.data_start, naxis1 as int, zs, zz, values.len()),
                _ => false,
            }
        },
        _ => false,
    }
}

/// The decoded integers and scales of a quantized floating-point tiled
/// image (one that `read_tiled_image` reports as `UnsupportedCompression`
/// for its scaled integers), for floating-point code to turn into pixels.
pub fn read_quantized_tiles(fits_data: &[u8], hdu: &Hdu) -> (r: Result<QuantizedTiles>)
    requires
        tiled_readable(fits_data@.len() as int, hdu@),
        spec_read_tiled_image(fits_data@, hdu@)
            == Err::<ImageValues, Error>(Error::UnsupportedCompression("quantized floating-point tiles")),
        quantized_readable(fits_data@.len() as int, hdu@),
    ensures
        r matches Ok(q) ==> quantized_result(fits_data@, hdu@, q.grid@, q.total_pixels, tiles_view(q.values@), q.scales@),
        r matches Err(e) ==> spec_quantized_values(fits_data@, hdu@) == Err::<Seq<Seq<i32>>, Error>(e),
{
    let (znaxes, ztile, blocksize, rice_bytepix, naxis1, naxis2, tfields) = match &hdu.info {
        HduInfo::CompressedImage { znaxes, ztile, blocksize, rice_bytepix, naxis1, naxis2, tfields, .. } =>
            (znaxes, ztile, *blocksize, *rice_bytepix, *naxis1, *naxis2, *tfields),
        _ => return Err(Error::InvalidHeader),
    };
    let total: usize = if znaxes.len() == 0 { 0 } else { crate::primary::scaled_product(1, znaxes.as_slice()) };
    let col_info = parse_column_layout(hdu.cards.as_slice(), tfields)?;
    let (is_rice, _is_gzip) = compression_kinds(hdu);
    proof {
        lemma_product_positive(znaxes@);
    }
    let grid = TileGrid::new(znaxes.as_slice(), ztile.as_slice());
    let glen = grid.len();
    let ntiles = if glen <= naxis2 { glen } else { naxis2 };
    let ds = hdu.data_start;
    let comp = col_info.compressed_data_offset;
    let values = if is_rice {
        let params = RiceParams::for_bytepix(rice_bytepix)?;
        assert(params == rice_params(rice_bytepix));
        let tiles = decode_rice_tiles(fits_data, ds, naxis1, naxis2, comp, &grid, blocksize, &params, ntiles)?;
        proof {
            lemma_rice_tiles_len(fits_data@, ds as int, naxis1 as int, naxis2 as int, comp as int, grid@, blocksize as nat, params, ntiles as nat);
            assert(Seq::new(tiles@.len(), |i: int| tiles@[i]@) =~= tiles_view(tiles@));
        }
        tiles
    } else {
        let tiles = decode_gzip_tiles(fits_data, ds, naxis1, naxis2, comp, ntiles)?;
        proof {
            lemma_gzip_tiles_len(fits_data@, ds as int, naxis1 as int, naxis2 as int, comp as int, ntiles as nat);
            assert(Seq::new(tiles@.len(), |i: int| tiles@[i]@) =~= tiles_view(tiles@));
        }
        let ghost ts = tiles_view(tiles@);
        let conv = gzip_tiles_i32(tiles);
        assert(tiles_view(conv@) =~= gzip_tiles_i32_spec(ts));
        conv
    };
    let zs = match col_info.zscale_offset { Some(o) => o, None => return Err(Error::InvalidHeader) };
    let zz = match col_info.zzero_offset { Some(o) => o, None => return Err(Error::InvalidHeader) };
    let mut scales: Vec<(u64, u64)> = Vec::new();
    let mut t: usize = 0;
    while t < ntiles
        invariant
            t <= ntiles,
            ntiles == tiles_read(grid@, naxis2),
            forall|j: int| 0 <= j < ntiles ==> ds + #[trigger] (j * naxis1) + zs + 8 <= fits_data@.len()
                && ds + j * naxis1 + zz + 8 <= fits_data@.len(),
            scales@ == spec_scales(fits_data@, ds as int, naxis1 as int, zs as int, zz as int, t as nat),
        decreases ntiles - t,
    {
        assert(ds + t * naxis1 + zs + 8 <= fits_data@.len());
        let pair = read_zscale_zzero(fits_data, ds, naxis1, t, zs, zz);
        scales.push(pair);
        t += 1;
        assert(scales@ =~= spec_scales(fits_data@, ds as int, naxis1 as int, zs as int, zz as int, t as nat));
    }
    Ok(QuantizedTiles { grid, total_pixels: total, values, scales })
}

// ── Checking that a tiled image can be read ──

/// Whether every prefix product of `dims` fits in a `usize`.
fn prefix_products_fit_exec(dims: &[usize]) -> (b: bool)
    ensures
        b == prefix_products_fit(1, dims@),
{
    let mut acc: usize = 1;
    let mut i: usize = 0;
    assert(dims@.subrange(0, 0) =~= Seq::<usize>::empty());
    while i < dims.len()
        invariant
            i <= dims@.len(),
            acc == product(dims@.subrange(0, i as int)),
            forall|j: int| 0 <= j <= i ==> #[trigger] product(dims@.subrange(0, j)) * 1 <= usize::MAX,
        decreases dims@.len() - i,
    {
        assert(dims@.subrange(0, i + 1).drop_last() =~= dims@.subrange(0, i as int));
        assert(dims@.subrange(0, i + 1).last() == dims@[i as int]);
        match acc.checked_mul(dims[i]) {
            Some(a) => acc = a,
            None => {
                assert(product(dims@.subrange(0, i + 1)) * 1 > usize::MAX);
                return false;
            },
        }
        i += 1;
    }
    true
}

/// Whether the running column offsets of a compressed image's table fit
/// in a `usize`.
fn layout_fits_exec(cards: &[Card], tfields: usize) -> (b: bool)
    requires
        tforms_sliceable(cards_view(cards@), tfields as nat),
    ensures
        b == layout_fits(cards_view(cards@), tfields as nat),
{
    let ghost cv = cards_view(cards@);
    let tform = [84u8, 70u8, 79u8, 82u8, 77u8];
    assert(tform@ =~= tform_name());
    let mut offset: usize = 0;
    let mut k: usize = 0;
    let ghost mut ws: Seq<nat> = Seq::empty();
    while k < tfields
        invariant
            k <= tfields,
            cv == cards_view(cards@),
            tform@ == tform_name(),
            tforms_sliceable(cv, tfields as nat),
            layout_widths(cv, k as nat) == Ok::<Seq<nat>, Error>(ws),
            ws.len() == k,
            offset == width_sum(ws, k as int),
            forall|m: nat| m <= k ==> (#[trigger] layout_widths(cv, m) matches Ok(vs) ==> width_sum(vs, m as int) <= usize::MAX),
        decreases tfields - k,
    {
        let n = k + 1;
        let tf = match crate::bintable::numbered_string_value(cards, &tform, n) {
            Some(t) => t,
            None => {
                proof {
                    assert forall|m: nat| m <= tfields implies (#[trigger] layout_widths(cv, m) matches Ok(vs)
                        ==> width_sum(vs, m as int) <= usize::MAX) by {
                        if m > k {
                            lemma_layout_widths_err(cv, n as nat, m);
                        }
                    }
                }
                return true;
            },
        };
        assert(numbered_str(cv, tform_name(), n as nat) == Some(tf@));
        let (repeat, col_type) = match parse_tform_binary(tf.as_str()) {
            Ok(v) => v,
            Err(e) => {
                proof {
                    assert forall|m: nat| m <= tfields implies (#[trigger] layout_widths(cv, m) matches Ok(vs)
                        ==> width_sum(vs, m as int) <= usize::MAX) by {
                        if m > k {
                            lemma_layout_widths_err(cv, n as nat, m);
                        }
                    }
                }
                return true;
            },
        };
        let ghost w = crate::bintable::byte_width(repeat as nat, col_type);
        assert(layout_widths(cv, n as nat) == Ok::<Seq<nat>, Error>(ws.push(w)));
        proof {
            lemma_width_sum_push(ws, w, k as int);
        }
        assert(width_sum(ws.push(w), n as int) == offset + w);
        let width = match crate::bintable::checked_byte_width(repeat, &col_type) {
            Some(x) => x,
            None => return false,
        };
        offset = match offset.checked_add(width) {
            Some(x) => x,
            None => return false,
        };
        proof {
            ws = ws.push(w);
        }
        k += 1;
    }
    true
}

/// A product of factors of at least 1 is at least the product of any prefix.
proof fn lemma_product_prefix_le(s: Seq<usize>, i: int)
    requires
        0 <= i <= s.len(),
        forall|j: int| 0 <= j < s.len() ==> #[trigger] s[j] >= 1,
    ensures
        product(s.subrange(0, i)) <= product(s),
    decreases s.len(),
{
    if i < s.len() {
        let d = s.drop_last();
        assert(d.subrange(0, i) =~= s.subrange(0, i));
        lemma_product_prefix_le(d, i);
        crate::primary::lemma_product_nonneg(d);
        assert(product(d) <= product(d) * s.last()) by (nonlinear_arith)
            requires product(d) >= 0, s.last() >= 1;
    } else {
        assert(s.subrange(0, i) =~= s);
    }
}

/// The first tile of a grid lies at its origin: every digit of 0 is 0.
proof fn lemma_radix_digits_zero(counts: Seq<usize>)
    requires
        forall|j: int| 0 <= j < counts.len() ==> #[trigger] counts[j] > 0,
    ensures
        radix_digits(counts, 0).len() == counts.len(),
        forall|j: int| 0 <= j < counts.len() ==> #[trigger] radix_digits(counts, 0)[j] == 0,
    decreases counts.len(),
{
    if counts.len() > 0 {
        let rest = counts.drop_first();
        assert forall|j: int| 0 <= j < rest.len() implies #[trigger] rest[j] > 0 by {
            assert(rest[j] == counts[j + 1]);
        }
        lemma_radix_digits_zero(rest);
        assert(0int % (counts[0] as int) == 0);
        assert(0int / (counts[0] as int) == 0);
        assert forall|j: int| 0 <= j < counts.len() implies #[trigger] radix_digits(counts, 0)[j] == 0 by {
            if j > 0 {
                assert(radix_digits(counts, 0)[j] == radix_digits(rest, 0)[j - 1]);
            }
        }
    }
}

/// The largest tile of a well-formed grid is the first: every tile's pixel
/// count is at most that of tile 0, which is the full tile shape.
proof fn lemma_first_tile_largest(g: GridModel)
    requires
        g.wf(),
    ensures
        g.spec_extent(0) == g.tile,
        forall|t: int| 0 <= t ==> #[trigger] product(g.spec_extent(t)) <= product(g.tile),
{
    assert forall|j: int| 0 <= j < g.counts.len() implies #[trigger] g.counts[j] > 0 by {
        lemma_ceil_div(g.dims[j] as int, g.tile[j] as int);
    }
    lemma_radix_digits_zero(g.counts);
    assert(g.spec_extent(0) =~= g.tile);
    assert forall|t: int| 0 <= t implies #[trigger] product(g.spec_extent(t)) <= product(g.tile) by {
        lemma_product_le(g.spec_extent(t), g.tile);
    }
}

/// Whether the product of `s` is at most `i32::MAX`, for factors of at
/// least 1.
fn product_within_i32(s: &[usize]) -> (b: bool)
    requires
        forall|j: int| 0 <= j < s@.len() ==> #[trigger] s@[j] >= 1,
    ensures
        b == (product(s@) <= i32::MAX),
{
    let mut acc: usize = 1;
    let mut i: usize = 0;
    assert(s@.subrange(0, 0) =~= Seq::<usize>::empty());
    while i < s.len()
        invariant
            i <= s@.len(),
            forall|j: int| 0 <= j < s@.len() ==> #[trigger] s@[j] >= 1,
            acc == product(s@.subrange(0, i as int)),
            acc <= i32::MAX,
        decreases s@.len() - i,
    {
        assert(s@.subrange(0, i + 1).drop_last() =~= s@.subrange(0, i as int));
        assert(s@.subrange(0, i + 1).last() == s@[i as int]);
        proof {
            lemma_product_prefix_le(s@, i + 1);
        }
        match acc.checked_mul(s[i]) {
            Some(a) => {
                if a > 0x7fff_ffffusize {
                    return false;
                }
                acc = a;
            },
            None => return false,
        }
        i += 1;
    }
    assert(s@.subrange(0, s@.len() as int) =~= s@);
    true
}

/// Whether a tile-compressed image HDU can be read: its axes multiply out
/// within a `usize`, its table's layout fits, its tiles are addressable in
/// the data, and a Rice image's block size and tiles are of a size the
/// decoder handles. Any other HDU can be read as it stands.
#[verifier::spinoff_prover]
pub fn check_tiled_readable(fits_data: &[u8], hdu: &Hdu) -> (b: bool)
    ensures
        b == tiled_readable(fits_data@.len() as int, hdu@),
{
    let data_len = fits_data.len();
    let (znaxes, ztile, blocksize, naxis1, naxis2, tfields) = match &hdu.info {
        HduInfo::CompressedImage { znaxes, ztile, blocksize, naxis1, naxis2, tfields, .. } =>
            (znaxes, ztile, *blocksize, *naxis1, *naxis2, *tfields),
        _ => return true,
    };
    if !prefix_products_fit_exec(znaxes.as_slice()) {
        return false;
    }
    if !crate::bintable::tforms_sliceable_exec(hdu.cards.as_slice(), tfields) {
        return false;
    }
    if !layout_fits_exec(hdu.cards.as_slice(), tfields) {
        return false;
    }
    if data_len as u64 >= 0x0100_0000_0000_0000u64 {
        return false;
    }
    let (is_rice, _is_gzip) = compression_kinds(hdu);
    if is_rice && !(0 < blocksize && blocksize <= 0x7fff_ffffusize) {
        return false;
    }
    let total: usize = if znaxes.len() == 0 { 0 } else { crate::primary::scaled_product(1, znaxes.as_slice()) };
    if total == 0 {
        return true;
    }
    proof {
        lemma_product_positive(znaxes@);
    }
    let grid = TileGrid::new(znaxes.as_slice(), ztile.as_slice());
    if is_rice {
        proof {
            lemma_first_tile_largest(grid@);
        }
        assert forall|j: int| 0 <= j < grid.tile@.len() implies #[trigger] grid.tile@[j] >= 1 by {
            assert(grid@.tile[j] >= 1);
        }
        if !product_within_i32(grid.tile.as_slice()) {
            assert(grid@ == grid_model(znaxes@, ztile@));
            assert(product(grid_model(znaxes@, ztile@).spec_extent(0)) > i32::MAX);
            assert(pixel_count(znaxes@) > 0);
            assert(has_substring(compression_name(hdu@.info), "RICE"@));
            assert(!(forall|t: int| 0 <= t ==> #[trigger] product(grid_model(znaxes@, ztile@).spec_extent(t)) <= i32::MAX));
            assert(hdu@.info matches HduInfoModel::CompressedImage { znaxes: zz, ztile: tt, .. } && zz == znaxes@ && tt == ztile@);
            assert(!tiled_readable(fits_data@.len() as int, hdu@));
            return false;
        }
    }
    let col_info = match parse_column_layout(hdu.cards.as_slice(), tfields) {
        Ok(ci) => ci,
        Err(_) => return true,
    };
    let comp = col_info.compressed_data_offset;
    let ds = hdu.data_start;
    let glen = grid.len();
    let k = if glen <= naxis2 { glen } else { naxis2 };
    assert(k == tiles_read(grid_model(znaxes@, ztile@), naxis2));
    let body = match naxis1.checked_mul(naxis2) {
        Some(x) => x,
        None => {
            proof {
                assert(naxis1 * naxis2 >= 0) by (nonlinear_arith);
            }
            return false;
        },
    };
    let fits_whole = match ds.checked_add(body) {
        Some(x) => (x as u128) + 0x2_0000_0000u128 <= usize::MAX as u128,
        None => false,
    };
    if !fits_whole {
        return false;
    }
    if k == 0 {
        return true;
    }
    proof {
        assert((k - 1) * naxis1 <= naxis1 * naxis2) by (nonlinear_arith)
            requires k <= naxis2, k >= 1, naxis1 >= 0;
    }
    let last = (k - 1) * naxis1;
    let ok = match ds.checked_add(last) {
        Some(x) => match x.checked_add(comp) {
            Some(y) => y <= usize::MAX - 8,
            None => false,
        },
        None => false,
    };
    proof {
        if ok {
            assert forall|t: int| 0 <= t < k implies ds + #[trigger] (t * naxis1) + comp + 8 <= usize::MAX by {
                assert(t * naxis1 <= (k - 1) * naxis1) by (nonlinear_arith)
                    requires 0 <= t <= k - 1, naxis1 >= 0;
            }
        } else {
            assert(ds + ((k - 1) * naxis1) + comp + 8 > usize::MAX);
        }
    }
    ok
}

} // verus!
