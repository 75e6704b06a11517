//! FITS CHECKSUM and DATASUM keyword support.
//!
//! Implements the HEASARC ones-complement checksum convention for verifying
//! and computing integrity checksums on FITS HDUs.
use vstd::prelude::*;
use vstd::arithmetic::div_mod::{lemma_fundamental_div_mod_converse, lemma_mod_multiples_vanish};

use crate::block::{lemma_padded_len_bounds, padded_byte_len, spec_padded_len, BLOCK_SIZE};
use crate::hdu::{find_valued, first_valued, lemma_first_valued, Hdu, HduModel, ValueKind};
use crate::block::spec_pad_blocks;
use crate::header::{cards_view, keyword_eq, kw, kw_pad, serialize_header, spec_serialize_header, Card, CardModel};
use crate::text::{ascii_chars, chars_of, nat_digits, parse_u64_chars, spec_parse_u64, string_from_bytes, trim, trim_bounds, u64_decimal};
use crate::value::{Value, ValueModel};

verus! {

// ---------------------------------------------------------------------------
// Arithmetic model
// ---------------------------------------------------------------------------

/// The modulus of 32-bit ones-complement arithmetic, `2^32 - 1`.
pub open spec fn ones_modulus() -> int {
    4294967295
}

/// The canonical 32-bit ones-complement representative of a nonnegative total:
/// 0 stays 0, and any positive total maps to the value in `1..=2^32-1` that is
/// congruent to it modulo `2^32 - 1`.
pub open spec fn spec_oc(t: int) -> int {
    if t <= 0 {
        0
    } else {
        (t - 1) % ones_modulus() + 1
    }
}

/// Big-endian 16-bit word at byte offset `i`.
pub open spec fn be16(s: Seq<u8>, i: int) -> int {
    s[i] as int * 256 + s[i + 1] as int
}

/// Big-endian 32-bit word at byte offset `i`.
pub open spec fn be32(s: Seq<u8>, i: int) -> int {
    be16(s, i) * 65536 + be16(s, i + 2)
}

/// Sum of the `n` big-endian 32-bit words that start at byte offset `off`.
pub open spec fn word_sum(s: Seq<u8>, off: int, n: nat) -> int
    decreases n,
{
    if n == 0 {
        0
    } else {
        word_sum(s, off, (n - 1) as nat) + be32(s, off + 4 * (n - 1))
    }
}

/// The ones-complement checksum of a byte sequence whose length is a
/// multiple of four.
pub open spec fn spec_checksum(s: Seq<u8>) -> int {
    spec_oc(word_sum(s, 0, (s.len() / 4) as nat))
}

proof fn lemma_word_sum_nonneg(s: Seq<u8>, off: int, n: nat)
    ensures
        word_sum(s, off, n) >= 0,
    decreases n,
{
    if n > 0 {
        lemma_word_sum_nonneg(s, off, (n - 1) as nat);
    }
}

proof fn lemma_word_sum_split(s: Seq<u8>, off: int, n: nat, m: nat)
    ensures
        word_sum(s, off, n + m) == word_sum(s, off, n) + word_sum(s, off + 4 * n, m),
    decreases m,
{
    if m > 0 {
        lemma_word_sum_split(s, off, n, (m - 1) as nat);
        assert(off + 4 * (n + m - 1) == off + 4 * n + 4 * (m - 1));
    }
}

proof fn lemma_word_sum_shift(s: Seq<u8>, a: int, b: int, n: nat)
    requires
        0 <= a,
        a + 4 * n <= b,
        b <= s.len(),
    ensures
        word_sum(s.subrange(a, b), 0, n) == word_sum(s, a, n),
    decreases n,
{
    if n > 0 {
        lemma_word_sum_shift(s, a, b, (n - 1) as nat);
    }
}

proof fn lemma_word_sum_concat(a: Seq<u8>, b: Seq<u8>, n: nat, m: nat)
    requires
        a.len() == 4 * n,
        b.len() >= 4 * m,
    ensures
        word_sum(a + b, 0, n + m) == word_sum(a, 0, n) + word_sum(b, 0, m),
    decreases n + m,
{
    lemma_word_sum_split(a + b, 0, n, m);
    lemma_word_sum_prefix(a, b, n);
    lemma_word_sum_suffix(a, b, m, (4 * n) as int);
}

proof fn lemma_word_sum_prefix(a: Seq<u8>, b: Seq<u8>, n: nat)
    requires
        a.len() >= 4 * n,
    ensures
        word_sum(a + b, 0, n) == word_sum(a, 0, n),
    decreases n,
{
    if n > 0 {
        lemma_word_sum_prefix(a, b, (n - 1) as nat);
    }
}

proof fn lemma_word_sum_suffix(a: Seq<u8>, b: Seq<u8>, m: nat, k: int)
    requires
        a.len() == k,
        b.len() >= 4 * m,
    ensures
        word_sum(a + b, k, m) == word_sum(b, 0, m),
    decreases m,
{
    if m > 0 {
        lemma_word_sum_suffix(a, b, (m - 1) as nat, k);
    }
}

/// Two positive totals that are congruent modulo `2^32 - 1` have the same
/// ones-complement representative.
proof fn lemma_oc_congruent(t: int, u: int, c: int)
    requires
        t > 0,
        u > 0,
        t == u + c * ones_modulus(),
    ensures
        spec_oc(t) == spec_oc(u),
{
    lemma_mod_multiples_vanish(c, u - 1, ones_modulus());
    assert(ones_modulus() * c + (u - 1) == t - 1) by (nonlinear_arith)
        requires
            t == u + c * ones_modulus(),
    ;
}

/// Folding a partial ones-complement sum never changes the final result.
pub proof fn lemma_oc_absorb(a: int, b: int)
    requires
        a >= 0,
        b >= 0,
    ensures
        spec_oc(spec_oc(a) + b) == spec_oc(a + b),
{
    if a > 0 {
        let q = (a - 1) / ones_modulus();
        lemma_fundamental_div_mod_converse(a - 1, ones_modulus(), q, (a - 1) % ones_modulus());
        assert((a - 1) == q * ones_modulus() + (a - 1) % ones_modulus()) by {
            vstd::arithmetic::div_mod::lemma_fundamental_div_mod(a - 1, ones_modulus());
            vstd::arithmetic::mul::lemma_mul_is_commutative(q, ones_modulus());
        }
        lemma_oc_congruent(a + b, spec_oc(a) + b, q);
    }
}

/// Folding two partial sums and combining them is the same as folding the total.
pub proof fn lemma_oc_combine(a: int, b: int)
    requires
        a >= 0,
        b >= 0,
    ensures
        spec_oc(spec_oc(a) + spec_oc(b)) == spec_oc(a + b),
{
    lemma_oc_absorb(a, spec_oc(b));
    lemma_oc_absorb(b, a);
}

// ---------------------------------------------------------------------------
// Ones-complement 32-bit checksum (cfitsio `ffcsum`)
// ---------------------------------------------------------------------------

/// Fold the carries of a split 16+16 bit accumulator into a 32-bit
/// ones-complement value.
fn fold_carries(hi0: u32, lo0: u32) -> (r: u32)
    ensures
        r == spec_oc(hi0 * 65536 + lo0),
{
    let mut hi = hi0;
    let mut lo = lo0;
    let ghost mut k: int = 0;
    let mut hicarry = hi / 65536;
    let mut locarry = lo / 65536;
    while hicarry != 0 || locarry != 0
        invariant
            hicarry == hi / 65536,
            locarry == lo / 65536,
            k >= 0,
            hi0 * 65536 + lo0 == hi * 65536 + lo + k * ones_modulus(),
            (hi0 * 65536 + lo0 > 0) == (hi * 65536 + lo > 0),
        decreases hi * 65536 + lo, lo,
    {
        let nhi = hi % 65536 + locarry;
        let nlo = lo % 65536 + hicarry;
        proof {
            assert(hi == hicarry * 65536 + hi % 65536);
            assert(lo == locarry * 65536 + lo % 65536);
            assert(hi * 65536 + lo == nhi * 65536 + nlo + hicarry * ones_modulus()) by (nonlinear_arith)
                requires
                    hi == hicarry * 65536 + hi % 65536,
                    lo == locarry * 65536 + lo % 65536,
                    nhi == hi % 65536 + locarry,
                    nlo == lo % 65536 + hicarry,
            ;
            k = k + hicarry;
        }
        hi = nhi;
        lo = nlo;
        hicarry = hi / 65536;
        locarry = lo / 65536;
    }
    proof {
        let t = hi0 * 65536 + lo0;
        let x = hi * 65536 + lo;
        if t > 0 {
            assert(1 <= x <= ones_modulus());
            lemma_fundamental_div_mod_converse(t - 1, ones_modulus(), k, x - 1);
        }
    }
    hi * 65536 + lo
}

/// Compute the ones-complement 32-bit checksum over block-aligned data.
///
/// `data` must be a multiple of [`BLOCK_SIZE`] (2880) bytes.
pub fn checksum_blocks(data: &[u8]) -> (r: u32)
    requires
        data@.len() % 2880 == 0,
    ensures
        r == spec_checksum(data@),
{
    let n = data.len();
    let nblocks = n / BLOCK_SIZE;
    let mut sum: u32 = 0;
    let mut k: usize = 0;
    while k < nblocks
        invariant
            n == data@.len(),
            nblocks == n / 2880,
            n % 2880 == 0,
            k <= nblocks,
            sum == spec_oc(word_sum(data@, 0, (720 * k) as nat)),
        decreases nblocks - k,
    {
        proof {
            assert(2880 * (k + 1) <= n) by (nonlinear_arith)
                requires k < nblocks, nblocks == n / 2880, n % 2880 == 0;
        }
        let start = k * BLOCK_SIZE;
        let block = &data[start..start + BLOCK_SIZE];
        let old_sum = sum;
        sum = accumulate_block(sum, block);
        proof {
            lemma_word_sum_shift(data@, start as int, start + 2880, 720);
            lemma_word_sum_split(data@, 0, (720 * k) as nat, 720);
            assert(4 * (720 * k) == start);
            lemma_word_sum_nonneg(data@, 0, (720 * k) as nat);
            lemma_word_sum_nonneg(data@, start as int, 720);
            lemma_oc_absorb(word_sum(data@, 0, (720 * k) as nat), word_sum(data@, start as int, 720));
            assert((720 * k) as nat + 720 == (720 * (k + 1)) as nat);
        }
        k += 1;
    }
    proof {
        assert(720 * nblocks == n / 4) by (nonlinear_arith)
            requires nblocks == n / 2880, n % 2880 == 0;
    }
    sum
}

/// Accumulate a single 2880-byte block into an existing checksum.
fn accumulate_block(sum: u32, block: &[u8]) -> (r: u32)
    requires
        block@.len() == 2880,
    ensures
        r == spec_oc(sum + word_sum(block@, 0, 720)),
{
    let mut hi: u32 = sum / 65536;
    let mut lo: u32 = sum % 65536;
    let mut p: usize = 0;
    while p < 720
        invariant
            block@.len() == 2880,
            p <= 720,
            hi <= 65535 + 65535 * p,
            lo <= 65535 + 65535 * p,
            hi * 65536 + lo == sum + word_sum(block@, 0, p as nat),
        decreases 720 - p,
    {
        let i = 4 * p;
        let w0 = (block[i] as u32) * 256 + block[i + 1] as u32;
        let w1 = (block[i + 2] as u32) * 256 + block[i + 3] as u32;
        hi = hi + w0;
        lo = lo + w1;
        p += 1;
    }
    fold_carries(hi, lo)
}

/// Ones-complement addition of two 32-bit values.
pub fn ones_complement_add(a: u32, b: u32) -> (r: u32)
    ensures
        r == spec_oc(a + b),
{
    let hi = a / 65536 + b / 65536;
    let lo = a % 65536 + b % 65536;
    fold_carries(hi, lo)
}

/// The checksum of a concatenation of block-aligned segments is the
/// ones-complement sum of their checksums.
pub proof fn lemma_checksum_concat(a: Seq<u8>, b: Seq<u8>)
    requires
        a.len() % 2880 == 0,
        b.len() % 2880 == 0,
    ensures
        spec_checksum(a + b) == spec_oc(spec_checksum(a) + spec_checksum(b)),
{
    let n = (a.len() / 4) as nat;
    let m = (b.len() / 4) as nat;
    lemma_word_sum_concat(a, b, n, m);
    assert((a + b).len() / 4 == n + m);
    lemma_word_sum_nonneg(a, 0, n);
    lemma_word_sum_nonneg(b, 0, m);
    lemma_oc_combine(word_sum(a, 0, n), word_sum(b, 0, m));
}

/// A value plus its ones-complement is negative zero.
pub proof fn lemma_add_complement_is_negative_zero(x: u32)
    ensures
        spec_oc(x + (0xFFFFFFFFu32 - x)) == 0xFFFFFFFF,
{
}


// ---------------------------------------------------------------------------
// ASCII encoding/decoding (cfitsio `ffesum` / `ffdsum`)
// ---------------------------------------------------------------------------

/// ASCII codes that an encoded checksum avoids (the punctuation between
/// digits, upper case and lower case letters).
pub open spec fn is_excluded(c: int) -> bool {
    (58 <= c <= 64) || (91 <= c <= 96)
}

/// Move one unit from the second character of a pair to the first until
/// neither character is an excluded code.
pub open spec fn settle_pair(x: int, y: int) -> (int, int)
    decreases (if y >= 58 { y - 57 } else { 0int }) + (if x <= 96 { 97 - x } else { 0int }),
{
    if is_excluded(x) || is_excluded(y) {
        settle_pair(x + 1, y - 1)
    } else {
        (x, y)
    }
}

/// The four characters that encode one byte of a checksum value.
#[verifier::opaque]
pub open spec fn enc_char(b: int, jj: int) -> int {
    let q = b / 4 + 48;
    let r = b % 4;
    if jj == 0 {
        settle_pair(q + r, q).0
    } else if jj == 1 {
        settle_pair(q + r, q).1
    } else if jj == 2 {
        settle_pair(q, q).0
    } else {
        settle_pair(q, q).1
    }
}

/// Byte `ii` (most significant first) of a 32-bit value.
pub open spec fn value_byte(v: int, ii: int) -> int {
    if ii == 0 {
        (v / 16777216) % 256
    } else if ii == 1 {
        (v / 65536) % 256
    } else if ii == 2 {
        (v / 256) % 256
    } else {
        v % 256
    }
}

/// The value that an encoding represents, before rotation.
pub open spec fn encoded_value(sum: u32, complement: bool) -> int {
    if complement {
        0xFFFFFFFF - sum
    } else {
        sum as int
    }
}

/// Character `k` of the unrotated encoding: byte `k % 4`, character `k / 4`.
pub open spec fn asc_char(v: int, k: int) -> int {
    enc_char(value_byte(v, k % 4), k / 4)
}

/// The 16-character encoding of a checksum (rotated right by one).
pub open spec fn spec_encode(sum: u32, complement: bool) -> Seq<u8> {
    Seq::new(16, |i: int| asc_char(encoded_value(sum, complement), (i + 15) % 16) as u8)
}

proof fn lemma_settle_first_good(x: int, y: int, k: nat)
    requires
        !is_excluded(x + k) && !is_excluded(y - k),
    ensures
        0 <= settle_pair(x, y).0 - x <= k,
        !is_excluded(settle_pair(x, y).0) && !is_excluded(settle_pair(x, y).1),
        settle_pair(x, y).0 + settle_pair(x, y).1 == x + y,
    decreases k,
{
    if is_excluded(x) || is_excluded(y) {
        assert(k != 0);
        lemma_settle_first_good(x + 1, y - 1, (k - 1) as nat);
    }
}

/// Settling the pair `(q + r, q)` that encodes one quarter of a byte stays
/// within the printable range and keeps the pair's total.
proof fn lemma_settle_bounds(q: int, r: int)
    requires
        48 <= q <= 111,
        0 <= r <= 3,
    ensures
        48 <= settle_pair(q + r, q).1,
        settle_pair(q + r, q).0 <= 114,
        settle_pair(q + r, q).1 <= settle_pair(q + r, q).0,
        !is_excluded(settle_pair(q + r, q).0),
        !is_excluded(settle_pair(q + r, q).1),
        settle_pair(q + r, q).0 + settle_pair(q + r, q).1 == 2 * q + r,
{
    let x = q + r;
    let k: nat = if q <= 54 {
        0
    } else if q <= 57 {
        if x >= 58 { (65 - x) as nat } else { 0 }
    } else if q <= 64 {
        7
    } else if q <= 87 {
        0
    } else if q <= 90 {
        if x >= 91 { (97 - x) as nat } else { 0 }
    } else if q <= 96 {
        6
    } else {
        0
    };
    lemma_settle_first_good(x, q, k);
}

/// Every character of an encoding is a digit or an ASCII letter, and the
/// four characters that encode byte `b` add up to `b + 4 * 48`.
proof fn lemma_enc_byte(b: int)
    requires
        0 <= b < 256,
    ensures
        forall|jj: int| 0 <= jj < 4 ==> 48 <= #[trigger] enc_char(b, jj) <= 114
            && !is_excluded(enc_char(b, jj)),
        enc_char(b, 0) + enc_char(b, 1) + enc_char(b, 2) + enc_char(b, 3) == b + 192,
{
    reveal(enc_char);
    let q = b / 4 + 48;
    let r = b % 4;
    lemma_settle_bounds(q, r);
    lemma_settle_bounds(q, 0);
}

/// Settle one pair of encoding characters, moving units from the second to
/// the first until neither is an excluded ASCII code.
fn settle(x0: i32, y0: i32) -> (r: (i32, i32))
    requires
        48 <= y0 <= 111,
        y0 <= x0 <= y0 + 3,
    ensures
        r.0 == settle_pair(x0 as int, y0 as int).0,
        r.1 == settle_pair(x0 as int, y0 as int).1,
{
    let mut x = x0;
    let mut y = y0;
    while (58 <= x && x <= 64) || (91 <= x && x <= 96) || (58 <= y && y <= 64) || (91 <= y && y <= 96)
        invariant
            settle_pair(x as int, y as int) == settle_pair(x0 as int, y0 as int),
            x + y == x0 + y0,
            96 <= x0 + y0 <= 225,
            x >= x0,
            x <= 231,
            y >= -1,
        decreases (if y >= 58 { y - 57 } else { 0 }) + (if x <= 96 { 97 - x } else { 0 }),
    {
        x = x + 1;
        y = y - 1;
    }
    (x, y)
}

/// Encode a 32-bit checksum into a 16-character ASCII string.
///
/// If `complement` is true, the bitwise complement of `sum` is encoded.
pub fn encode_checksum(sum: u32, complement: bool) -> (r: [u8; 16])
    ensures
        r@ == spec_encode(sum, complement),
{
    let value: u32 = if complement {
        0xFFFFFFFFu32 - sum
    } else {
        sum
    };
    proof { reveal(enc_char); }
    let bytes: [u32; 4] = [value / 16777216, (value / 65536) % 256, (value / 256) % 256, value % 256];
    let mut asc = [0u8; 16];
    let mut ii: usize = 0;
    while ii < 4
        invariant
            ii <= 4,
            value == encoded_value(sum, complement),
            forall|t: int| 0 <= t < 4 ==> #[trigger] bytes@[t] == value_byte(value as int, t),
            forall|t: int| 0 <= t < 4 ==> 0 <= #[trigger] value_byte(value as int, t) < 256,
            forall|k: int| 0 <= k < 16 && k % 4 < ii ==> asc@[k] == asc_char(value as int, k),
        decreases 4 - ii,
    {
        assert(0 <= bytes@[ii as int] < 256);
        let byte_val = bytes[ii] as i32;
        let quotient = byte_val / 4 + 48;
        let remainder = byte_val % 4;
        proof {
            reveal(enc_char);
            lemma_enc_byte(byte_val as int);
            lemma_settle_bounds(quotient as int, remainder as int);
            lemma_settle_bounds(quotient as int, 0);
        }
        let (c0, c1) = settle(quotient + remainder, quotient);
        let (c2, c3) = settle(quotient, quotient);
        asc[ii] = c0 as u8;
        asc[4 + ii] = c1 as u8;
        asc[8 + ii] = c2 as u8;
        asc[12 + ii] = c3 as u8;
        ii += 1;
    }
    let mut result = [0u8; 16];
    let mut i: usize = 0;
    while i < 16
        invariant
            i <= 16,
            value == encoded_value(sum, complement),
            forall|k: int| 0 <= k < 16 ==> asc@[k] == asc_char(value as int, k),
            forall|t: int| 0 <= t < i ==> result@[t] == spec_encode(sum, complement)[t],
        decreases 16 - i,
    {
        let src = (i + 15) % 16;
        result[i] = asc[src];
        i += 1;
    }
    assert(result@ =~= spec_encode(sum, complement));
    result
}

/// The decoding digit at position `k`, undoing the rotation.
pub open spec fn dec_digit(a: Seq<u8>, k: int) -> int {
    a[(k + 1) % 16] as int - 48
}

/// One 16-bit term of the decoding, as the 32-bit unsigned value it is
/// accumulated as.
pub open spec fn dec_term(a: Seq<u8>, k: int) -> int {
    let t = dec_digit(a, k) * 256 + dec_digit(a, k + 1);
    if t >= 0 {
        t
    } else {
        t + 4294967296
    }
}

/// The high accumulator of a decoding.
pub open spec fn dec_hi(a: Seq<u8>) -> int {
    dec_term(a, 0) + dec_term(a, 4) + dec_term(a, 8) + dec_term(a, 12)
}

/// The low accumulator of a decoding.
pub open spec fn dec_lo(a: Seq<u8>) -> int {
    dec_term(a, 2) + dec_term(a, 6) + dec_term(a, 10) + dec_term(a, 14)
}

/// The value that a 16-character encoding decodes to.
pub open spec fn spec_decode(a: Seq<u8>, complement: bool) -> int {
    let s = spec_oc(dec_hi(a) * 65536 + dec_lo(a));
    if complement {
        0xFFFFFFFF - s
    } else {
        s
    }
}

/// The 32-bit term that `decode_checksum` accumulates for digits `a` and `b`.
fn dec_term_exec(a: i32, b: i32) -> (r: u32)
    requires
        -48 <= a <= 207,
        -48 <= b <= 207,
    ensures
        r == (if a * 256 + b >= 0 { a * 256 + b } else { a * 256 + b + 4294967296 }),
{
    let t: i32 = a * 256 + b;
    if t >= 0 {
        t as u32
    } else {
        let neg: u32 = (0 - t) as u32;
        4294967295u32 - neg + 1
    }
}

/// Decode a 16-character ASCII encoded checksum into a 32-bit value.
///
/// If `complement` is true, the complement of the decoded value is returned.
/// The accumulators must not overflow (they cannot for any encoding that
/// `encode_checksum` produces).
pub fn decode_checksum(ascii: &[u8; 16], complement: bool) -> (r: u32)
    requires
        dec_hi(ascii@) <= u32::MAX,
        dec_lo(ascii@) <= u32::MAX,
    ensures
        r == spec_decode(ascii@, complement),
{
    let mut cbuf = [0i32; 16];
    let mut i: usize = 0;
    while i < 16
        invariant
            i <= 16,
            forall|k: int| 0 <= k < i ==> cbuf@[k] == dec_digit(ascii@, k),
        decreases 16 - i,
    {
        cbuf[i] = ascii[(i + 1) % 16] as i32 - 48;
        i += 1;
    }
    let mut hi: u32 = 0;
    let mut lo: u32 = 0;
    let mut j: usize = 0;
    assert forall|k: int| 0 <= k < 16 implies 0 <= #[trigger] dec_term(ascii@, k) by {
        assert(-48 <= dec_digit(ascii@, k) <= 207);
        assert(-48 <= dec_digit(ascii@, k + 1) <= 207);
    }
    while j < 4
        invariant
            j <= 4,
            forall|k: int| 0 <= k < 16 ==> cbuf@[k] == dec_digit(ascii@, k),
            dec_hi(ascii@) <= u32::MAX,
            dec_lo(ascii@) <= u32::MAX,
            forall|k: int| 0 <= k < 16 ==> -48 <= #[trigger] dec_digit(ascii@, k) <= 207,
            forall|k: int| 0 <= k < 16 ==> 0 <= #[trigger] dec_term(ascii@, k),
            hi == (if j >= 1 { dec_term(ascii@, 0) } else { 0 }) + (if j >= 2 { dec_term(ascii@, 4) } else { 0 })
                + (if j >= 3 { dec_term(ascii@, 8) } else { 0 }) + (if j >= 4 { dec_term(ascii@, 12) } else { 0 }),
            lo == (if j >= 1 { dec_term(ascii@, 2) } else { 0 }) + (if j >= 2 { dec_term(ascii@, 6) } else { 0 })
                + (if j >= 3 { dec_term(ascii@, 10) } else { 0 }) + (if j >= 4 { dec_term(ascii@, 14) } else { 0 }),
        decreases 4 - j,
    {
        let ii = 4 * j;
        hi = hi + dec_term_exec(cbuf[ii], cbuf[ii + 1]);
        lo = lo + dec_term_exec(cbuf[ii + 2], cbuf[ii + 3]);
        j += 1;
    }
    let s = fold_carries(hi, lo);
    if complement {
        0xFFFFFFFFu32 - s
    } else {
        s
    }
}

proof fn lemma_decoded_digit(sum: u32, complement: bool, k: int)
    requires
        0 <= k < 16,
    ensures
        dec_digit(spec_encode(sum, complement), k) == asc_char(encoded_value(sum, complement), k) - 48,
        48 <= asc_char(encoded_value(sum, complement), k) <= 114,
{
    let e = spec_encode(sum, complement);
    let v = encoded_value(sum, complement);
    assert((((k + 1) % 16) + 15) % 16 == k);
    assert(0 <= value_byte(v, k % 4) < 256);
    lemma_enc_byte(value_byte(v, k % 4));
    assert(48 <= enc_char(value_byte(v, k % 4), k / 4) <= 114);
    assert(e[(k + 1) % 16] == asc_char(v, k) as u8);
}

#[verifier::spinoff_prover]
#[verifier::rlimit(40)]
proof fn lemma_value_bytes(v: int)
    requires
        0 <= v <= 0xFFFFFFFF,
    ensures
        v == value_byte(v, 0) * 16777216 + value_byte(v, 1) * 65536 + value_byte(v, 2) * 256
            + value_byte(v, 3),
        forall|t: int| 0 <= t < 4 ==> 0 <= #[trigger] value_byte(v, t) < 256,
{
}

/// Decoding an encoding gives back the encoded value, with or without the
/// complement.
#[verifier::rlimit(100)]
#[verifier::spinoff_prover]
pub proof fn lemma_encode_decode_roundtrip(sum: u32, complement: bool)
    ensures
        dec_hi(spec_encode(sum, complement)) <= u32::MAX,
        dec_lo(spec_encode(sum, complement)) <= u32::MAX,
        spec_decode(spec_encode(sum, complement), complement) == sum,
{
    let e = spec_encode(sum, complement);
    let v = encoded_value(sum, complement);
    lemma_value_bytes(v);
    let b0 = value_byte(v, 0);
    let b1 = value_byte(v, 1);
    let b2 = value_byte(v, 2);
    let b3 = value_byte(v, 3);
    lemma_enc_byte(b0);
    lemma_enc_byte(b1);
    lemma_enc_byte(b2);
    lemma_enc_byte(b3);
    lemma_decoded_digit(sum, complement, 0);
    lemma_decoded_digit(sum, complement, 1);
    lemma_decoded_digit(sum, complement, 2);
    lemma_decoded_digit(sum, complement, 3);
    lemma_decoded_digit(sum, complement, 4);
    lemma_decoded_digit(sum, complement, 5);
    lemma_decoded_digit(sum, complement, 6);
    lemma_decoded_digit(sum, complement, 7);
    lemma_decoded_digit(sum, complement, 8);
    lemma_decoded_digit(sum, complement, 9);
    lemma_decoded_digit(sum, complement, 10);
    lemma_decoded_digit(sum, complement, 11);
    lemma_decoded_digit(sum, complement, 12);
    lemma_decoded_digit(sum, complement, 13);
    lemma_decoded_digit(sum, complement, 14);
    lemma_decoded_digit(sum, complement, 15);
    assert(asc_char(v, 0) == enc_char(b0, 0));
    assert(asc_char(v, 1) == enc_char(b1, 0));
    assert(asc_char(v, 2) == enc_char(b2, 0));
    assert(asc_char(v, 3) == enc_char(b3, 0));
    assert(asc_char(v, 4) == enc_char(b0, 1));
    assert(asc_char(v, 5) == enc_char(b1, 1));
    assert(asc_char(v, 6) == enc_char(b2, 1));
    assert(asc_char(v, 7) == enc_char(b3, 1));
    assert(asc_char(v, 8) == enc_char(b0, 2));
    assert(asc_char(v, 9) == enc_char(b1, 2));
    assert(asc_char(v, 10) == enc_char(b2, 2));
    assert(asc_char(v, 11) == enc_char(b3, 2));
    assert(asc_char(v, 12) == enc_char(b0, 3));
    assert(asc_char(v, 13) == enc_char(b1, 3));
    assert(asc_char(v, 14) == enc_char(b2, 3));
    assert(asc_char(v, 15) == enc_char(b3, 3));
    assert(dec_hi(e) == b0 * 256 + b1);
    assert(dec_lo(e) == b2 * 256 + b3);
    if v > 0 {
        lemma_fundamental_div_mod_converse(v - 1, ones_modulus(), 0, v - 1);
    }
}

/// Every character of an encoded checksum is an ASCII digit or letter.
pub proof fn lemma_encoded_chars_alphanumeric(sum: u32, complement: bool)
    ensures
        forall|i: int| 0 <= i < 16 ==> {
            let c = #[trigger] spec_encode(sum, complement)[i];
            (48 <= c <= 57) || (65 <= c <= 90) || (97 <= c <= 122)
        },
{
    let v = encoded_value(sum, complement);
    assert forall|i: int| 0 <= i < 16 implies {
        let c = #[trigger] spec_encode(sum, complement)[i];
        (48 <= c <= 57) || (65 <= c <= 90) || (97 <= c <= 122)
    } by {
        let k = (i + 15) % 16;
        lemma_enc_byte(value_byte(v, k % 4));
        assert(48 <= enc_char(value_byte(v, k % 4), k / 4) <= 114);
    }
}

// ---------------------------------------------------------------------------
// HDU checksums (read and write paths)
// ---------------------------------------------------------------------------

/// The checksum of an HDU's data blocks: 0 without data or when the data
/// blocks run past the end of the stream.
pub open spec fn spec_datasum(fits_data: Seq<u8>, data_start: int, data_len: int) -> int {
    let end = data_start + spec_padded_len(data_len);
    if data_len == 0 || end > fits_data.len() {
        0
    } else {
        spec_checksum(fits_data.subrange(data_start, end))
    }
}

/// Compute the DATASUM for an HDU's data blocks.
pub fn compute_datasum(fits_data: &[u8], hdu: &Hdu) -> (r: u32)
    requires
        hdu.data_start + spec_padded_len(hdu.data_len as int) <= usize::MAX,
    ensures
        r == spec_datasum(fits_data@, hdu.data_start as int, hdu.data_len as int),
{
    if hdu.data_len == 0 {
        return 0;
    }
    proof { lemma_padded_len_bounds(hdu.data_len as int); }
    let data_padded = padded_byte_len(hdu.data_len);
    let data_end = hdu.data_start + data_padded;
    if data_end > fits_data.len() {
        return 0;
    }
    checksum_blocks(&fits_data[hdu.data_start..data_end])
}

/// The value of the first card with keyword `k` that holds a string, as
/// written (not trimmed).
pub open spec fn card_raw_str(cards: Seq<CardModel>, k: Seq<u8>) -> Option<Seq<char>> {
    match first_valued(cards, k, ValueKind::Text, 0) {
        Some(i) => match cards[i].value {
            Some(ValueModel::Str(s)) => Some(s),
            _ => None,
        },
        None => None,
    }
}

/// The value of the first card with keyword `k` that holds a string.
fn find_string_keyword(cards: &[Card], k: &[u8; 8]) -> (r: Option<String>)
    ensures
        r matches Some(s) ==> card_raw_str(cards_view(cards@), k@) == Some(s@),
        r is None ==> card_raw_str(cards_view(cards@), k@) is None,
{
    proof { lemma_first_valued(cards_view(cards@), k@, ValueKind::Text, 0); }
    match find_valued(cards, k, ValueKind::Text) {
        Some(i) => {
            assert(cards_view(cards@)[i as int] == cards@[i as int]@);
            match &cards[i].value {
                Some(Value::String(s)) => Some(s.clone()),
                _ => None,
            }
        },
        None => None,
    }
}

/// The keyword `DATASUM`.
pub open spec fn datasum_keyword() -> Seq<u8> {
    kw_pad(seq![68u8, 65u8, 84u8, 65u8, 83u8, 85u8, 77u8])
}

/// The keyword `CHECKSUM`.
pub open spec fn checksum_keyword() -> Seq<u8> {
    kw_pad(seq![67u8, 72u8, 69u8, 67u8, 75u8, 83u8, 85u8, 77u8])
}

fn datasum_keyword_exec() -> (r: [u8; 8])
    ensures
        r@ == datasum_keyword(),
{
    let a = [68u8, 65u8, 84u8, 65u8, 83u8, 85u8, 77u8];
    assert(a@ =~= seq![68u8, 65u8, 84u8, 65u8, 83u8, 85u8, 77u8]);
    kw(&a)
}

fn checksum_keyword_exec() -> (r: [u8; 8])
    ensures
        r@ == checksum_keyword(),
{
    let a = [67u8, 72u8, 69u8, 67u8, 75u8, 83u8, 85u8, 77u8];
    assert(a@ =~= seq![67u8, 72u8, 69u8, 67u8, 75u8, 83u8, 85u8, 77u8]);
    kw(&a)
}

/// Whether a stored DATASUM agrees with the data: true without a DATASUM
/// card, false when its value is not a decimal `u64`, and otherwise whether
/// its low 32 bits equal the data checksum.
pub open spec fn spec_verify_datasum(fits_data: Seq<u8>, hdu: HduModel) -> bool {
    match card_raw_str(hdu.cards, datasum_keyword()) {
        None => true,
        Some(s) => match spec_parse_u64(trim(s)) {
            None => false,
            Some(v) => spec_datasum(fits_data, hdu.data_start, hdu.data_len) == (v as u32),
        },
    }
}

/// Verify the DATASUM keyword against the actual data checksum.
///
/// Returns `true` if DATASUM matches, `false` if it doesn't, and `true`
/// if no DATASUM keyword is present (nothing to verify).
pub fn verify_datasum(fits_data: &[u8], hdu: &Hdu) -> (r: bool)
    requires
        hdu.data_start + spec_padded_len(hdu.data_len as int) <= usize::MAX,
    ensures
        r == spec_verify_datasum(fits_data@, hdu@),
{
    let stored = match find_string_keyword(hdu.cards.as_slice(), &datasum_keyword_exec()) {
        Some(s) => s,
        None => return true,
    };
    let cs = chars_of(stored.as_str());
    let (b, e) = trim_bounds(&cs, 0, cs.len());
    assert(cs@.subrange(0, cs@.len() as int) =~= cs@);
    let expected: u32 = match parse_u64_chars(&cs, b, e) {
        Some(v) => v as u32,
        None => return false,
    };
    let computed = compute_datasum(fits_data, hdu);
    computed == expected
}

/// Whether an HDU's bytes sum to negative zero: true without a CHECKSUM
/// card; false when the HDU runs past the end of the stream or its bytes
/// are not whole blocks.
pub open spec fn spec_verify_checksum(fits_data: Seq<u8>, hdu: HduModel) -> bool {
    if card_raw_str(hdu.cards, checksum_keyword()) is None {
        true
    } else {
        let end = hdu.data_start + spec_padded_len(hdu.data_len);
        if end > fits_data.len() || hdu.header_start > fits_data.len() {
            false
        } else if (end - hdu.header_start) % 2880 != 0 {
            false
        } else {
            let sum = spec_checksum(fits_data.subrange(hdu.header_start, end));
            sum == 0 || sum == 0xFFFFFFFF
        }
    }
}

/// Verify the CHECKSUM keyword for an entire HDU.
///
/// The total ones-complement checksum of a valid HDU should be -0
/// (i.e. `0x00000000` or `0xFFFFFFFF`).
pub fn verify_checksum(fits_data: &[u8], hdu: &Hdu) -> (r: bool)
    requires
        hdu.data_start + spec_padded_len(hdu.data_len as int) <= usize::MAX,
        hdu.header_start <= hdu.data_start,
    ensures
        r == spec_verify_checksum(fits_data@, hdu@),
{
    if find_string_keyword(hdu.cards.as_slice(), &checksum_keyword_exec()).is_none() {
        return true;
    }
    proof { lemma_padded_len_bounds(hdu.data_len as int); }
    let data_padded = padded_byte_len(hdu.data_len);
    let hdu_end = hdu.data_start + data_padded;
    if hdu_end > fits_data.len() || hdu.header_start > fits_data.len() {
        return false;
    }
    let hdu_bytes = &fits_data[hdu.header_start..hdu_end];
    if hdu_bytes.len() % BLOCK_SIZE != 0 {
        return false;
    }
    let sum = checksum_blocks(hdu_bytes);
    sum == 0 || sum == 0xFFFFFFFF
}

/// The cards other than CHECKSUM and DATASUM, in order.
pub open spec fn cards_without_sums(cards: Seq<CardModel>) -> Seq<CardModel>
    decreases cards.len(),
{
    if cards.len() == 0 {
        cards
    } else {
        let rest = cards_without_sums(cards.drop_last());
        let c = cards.last();
        if c.keyword == checksum_keyword() || c.keyword == datasum_keyword() {
            rest
        } else {
            rest.push(c)
        }
    }
}

/// The DATASUM of a data unit: the checksum of its zero-padded blocks, 0
/// when empty.
pub open spec fn spec_data_checksum(data: Seq<u8>) -> int {
    if data.len() == 0 { 0 } else { spec_checksum(spec_pad_blocks(data, 0u8)) }
}

/// The DATASUM card for a data checksum.
pub open spec fn datasum_card(sum: int) -> CardModel {
    CardModel {
        keyword: datasum_keyword(),
        value: Some(ValueModel::Str(ascii_chars(nat_digits(sum as nat)))),
        comment: Some("data unit checksum"@),
    }
}

/// The CHECKSUM card holding `text`.
pub open spec fn checksum_card(text: Seq<char>) -> CardModel {
    CardModel {
        keyword: checksum_keyword(),
        value: Some(ValueModel::Str(text)),
        comment: Some("HDU checksum"@),
    }
}

/// The cards that `stamp_checksum` returns: the cards without CHECKSUM and
/// DATASUM, then DATASUM, then CHECKSUM holding the encoded complement of the
/// HDU's sum computed with a CHECKSUM of sixteen zeros.
pub open spec fn spec_stamp(cards: Seq<CardModel>, data: Seq<u8>) -> Seq<CardModel> {
    let kept = cards_without_sums(cards);
    let datasum = spec_data_checksum(data);
    let with_zeros = kept + seq![datasum_card(datasum), checksum_card("0000000000000000"@)];
    let header_sum = spec_checksum(spec_serialize_header(with_zeros));
    let hdu_sum = spec_oc(header_sum + datasum);
    kept + seq![datasum_card(datasum), checksum_card(ascii_chars(spec_encode(hdu_sum as u32, true)))]
}

/// Stamp CHECKSUM and DATASUM keywords onto a set of header cards.
///
/// Computes the data checksum and returns a new card list with DATASUM and
/// CHECKSUM appended (any existing ones are dropped). The CHECKSUM value is
/// computed iteratively: the header is first serialized with
/// `CHECKSUM = '0000000000000000'`, the whole HDU is checksummed, and the
/// complement of that sum is encoded, so that the HDU sums to -0.
pub fn stamp_checksum(cards: &[Card], data_bytes: &[u8]) -> (r: Vec<Card>)
    requires
        80 * (cards@.len() + 3) + 2880 <= usize::MAX,
        spec_padded_len(data_bytes@.len() as int) <= usize::MAX,
    ensures
        cards_view(r@) == spec_stamp(cards_view(cards@), data_bytes@),
{
    let ghost cv = cards_view(cards@);
    let ck = checksum_keyword_exec();
    let dk = datasum_keyword_exec();
    let mut new_cards: Vec<Card> = Vec::new();
    let mut i: usize = 0;
    while i < cards.len()
        invariant
            i <= cards@.len(),
            cv == cards_view(cards@),
            ck@ == checksum_keyword(),
            dk@ == datasum_keyword(),
            cards_view(new_cards@) == cards_without_sums(cv.subrange(0, i as int)),
            new_cards@.len() <= i,
        decreases cards@.len() - i,
    {
        let c = &cards[i];
        proof {
            assert(cv.subrange(0, i + 1).drop_last() =~= cv.subrange(0, i as int));
            assert(cv.subrange(0, i + 1).last() == c@);
        }
        if !keyword_eq(&c.keyword, &ck) && !keyword_eq(&c.keyword, &dk) {
            let ghost before = new_cards@;
            new_cards.push(c.duplicate());
            proof {
                assert(cards_view(new_cards@) =~= cards_view(before).push(c@));
            }
        }
        i += 1;
    }
    assert(cv.subrange(0, cards@.len() as int) =~= cv);
    let ghost kept = cards_without_sums(cv);
    proof { lemma_padded_len_bounds(data_bytes@.len() as int); }
    let datasum: u32 = if data_bytes.len() == 0 {
        0
    } else {
        let padded_len = padded_byte_len(data_bytes.len());
        let mut padded = vec![0u8; padded_len];
        crate::block::pad_data_blocks(padded.as_mut_slice(), data_bytes);
        checksum_blocks(padded.as_slice())
    };
    assert(datasum as int == spec_data_checksum(data_bytes@));
    let digits = u64_decimal(datasum as u64);
    new_cards.push(Card {
        keyword: dk,
        value: Some(Value::String(string_from_bytes(digits.as_slice()))),
        comment: Some("data unit checksum".to_owned()),
    });
    new_cards.push(Card {
        keyword: ck,
        value: Some(Value::String("0000000000000000".to_owned())),
        comment: Some("HDU checksum".to_owned()),
    });
    let ghost with_zeros = kept + seq![datasum_card(datasum as int), checksum_card("0000000000000000"@)];
    assert(cards_view(new_cards@) =~= with_zeros);
    let header_bytes = serialize_header(new_cards.as_slice());
    let header_sum = checksum_blocks(header_bytes.as_slice());
    let hdu_sum = ones_complement_add(header_sum, datasum);
    let encoded = encode_checksum(hdu_sum, true);
    let text = string_from_bytes(&encoded);
    let last = new_cards.len() - 1;
    let ghost before = new_cards@;
    new_cards.set(last, Card { keyword: ck, value: Some(Value::String(text)), comment: Some("HDU checksum".to_owned()) });
    assert(cards_view(new_cards@) =~= kept + seq![datasum_card(datasum as int), checksum_card(ascii_chars(spec_encode(hdu_sum, true)))]);
    new_cards
}

} // verus!
