//! Big-endian byte conversion for FITS data.
//!
//! FITS stores all binary data in big-endian (most-significant byte first)
//! format. This module reads and writes integers from/to big-endian byte
//! slices, and converts whole buffers between big-endian and the native byte
//! order in place.
use vstd::prelude::*;

verus! {

/// `256^n`.
pub open spec fn pow256(n: nat) -> int
    decreases n,
{
    if n == 0 {
        1
    } else {
        256 * pow256((n - 1) as nat)
    }
}

/// The unsigned value of the first `n` bytes of `s`, most significant first.
pub open spec fn be_uint(s: Seq<u8>, n: nat) -> int
    decreases n,
{
    if n == 0 {
        0
    } else {
        be_uint(s, (n - 1) as nat) * 256 + s[n - 1] as int
    }
}

/// The `n`-byte big-endian representation of `u` (taken modulo `256^n`).
pub open spec fn be_bytes(u: int, n: nat) -> Seq<u8>
    decreases n,
{
    if n == 0 {
        Seq::empty()
    } else {
        be_bytes(u / 256, (n - 1) as nat).push((u % 256) as u8)
    }
}

/// Two's-complement reading of an unsigned value of `bits` bits.
pub open spec fn to_signed(u: int, bits: nat) -> int {
    if u >= pow2_int(bits) / 2 {
        u - pow2_int(bits)
    } else {
        u
    }
}

/// Two's-complement unsigned representation of a signed value of `bits` bits.
pub open spec fn to_unsigned(v: int, bits: nat) -> int {
    if v < 0 {
        v + pow2_int(bits)
    } else {
        v
    }
}

/// `2^bits` for the widths used here.
pub open spec fn pow2_int(bits: nat) -> int {
    if bits == 8 {
        256
    } else if bits == 16 {
        65536
    } else if bits == 32 {
        4294967296
    } else {
        18446744073709551616
    }
}

pub proof fn lemma_pow256_values()
    ensures
        pow256(1) == 256,
        pow256(2) == 65536,
        pow256(4) == 4294967296,
        pow256(8) == 18446744073709551616,
{
    reveal_with_fuel(pow256, 9);
}

/// `be_uint` only looks at the first `n` bytes.
pub proof fn lemma_be_uint_prefix(s: Seq<u8>, t: Seq<u8>, n: nat)
    requires
        n <= s.len(),
        n <= t.len(),
        s.subrange(0, n as int) == t.subrange(0, n as int),
    ensures
        be_uint(s, n) == be_uint(t, n),
    decreases n,
{
    if n > 0 {
        assert(s[n - 1] == s.subrange(0, n as int)[n - 1]);
        assert(t[n - 1] == t.subrange(0, n as int)[n - 1]);
        assert(s.subrange(0, n - 1) == s.subrange(0, n as int).subrange(0, n - 1));
        assert(t.subrange(0, n - 1) == t.subrange(0, n as int).subrange(0, n - 1));
        lemma_be_uint_prefix(s, t, (n - 1) as nat);
    }
}

/// Reading back the big-endian bytes of a value gives the value.
pub proof fn lemma_be_roundtrip(u: int, n: nat, rest: Seq<u8>)
    requires
        0 <= u < pow256(n),
    ensures
        be_bytes(u, n).len() == n,
        be_uint(be_bytes(u, n) + rest, n) == u,
    decreases n,
{
    if n > 0 {
        let m = (n - 1) as nat;
        assert(0 <= u / 256 < pow256(m)) by {
            assert(pow256(n) == 256 * pow256(m));
        }
        lemma_be_roundtrip(u / 256, m, seq![(u % 256) as u8] + rest);
        let s = be_bytes(u, n) + rest;
        let t = be_bytes(u / 256, m) + (seq![(u % 256) as u8] + rest);
        assert(s =~= t);
        assert(s[n - 1] == (u % 256) as u8);
    }
}

/// The bytes read back give the value they were read from.
pub proof fn lemma_be_bytes_of_uint(s: Seq<u8>, n: nat)
    requires
        n <= s.len(),
    ensures
        be_bytes(be_uint(s, n), n) == s.subrange(0, n as int),
        0 <= be_uint(s, n) < pow256(n),
    decreases n,
{
    if n > 0 {
        lemma_be_bytes_of_uint(s, (n - 1) as nat);
        let v = be_uint(s, n);
        assert(v / 256 == be_uint(s, (n - 1) as nat));
        assert(v % 256 == s[n - 1]);
        assert(s.subrange(0, n as int) =~= s.subrange(0, n - 1).push(s[n - 1]));
    }
}

// --- Single-value reads ---

/// Read a `u8` from the first byte of the slice.
pub fn read_u8(buf: &[u8]) -> (r: u8)
    requires
        buf@.len() >= 1,
    ensures
        r == buf@[0],
{
    buf[0]
}

/// Read a big-endian `i16` from the first 2 bytes of the slice.
pub fn read_i16_be(buf: &[u8]) -> (r: i16)
    requires
        buf@.len() >= 2,
    ensures
        r == to_signed(be_uint(buf@, 2), 16),
{
    let u = read_u16_be(buf);
    if u >= 32768 {
        (u as i32 - 65536) as i16
    } else {
        u as i16
    }
}

/// Read a big-endian `u16` from the first 2 bytes of the slice.
pub fn read_u16_be(buf: &[u8]) -> (r: u16)
    requires
        buf@.len() >= 2,
    ensures
        r == be_uint(buf@, 2),
{
    proof { reveal_with_fuel(be_uint, 3); }
    (buf[0] as u16) * 256 + buf[1] as u16
}

/// Read a big-endian `i32` from the first 4 bytes of the slice.
pub fn read_i32_be(buf: &[u8]) -> (r: i32)
    requires
        buf@.len() >= 4,
    ensures
        r == to_signed(be_uint(buf@, 4), 32),
{
    let u = read_u32_be(buf);
    if u >= 2147483648 {
        (u as i64 - 4294967296) as i32
    } else {
        u as i32
    }
}

/// Read a big-endian `u32` from the first 4 bytes of the slice.
pub fn read_u32_be(buf: &[u8]) -> (r: u32)
    requires
        buf@.len() >= 4,
    ensures
        r == be_uint(buf@, 4),
{
    proof { reveal_with_fuel(be_uint, 5); }
    (buf[0] as u32) * 16777216 + (buf[1] as u32) * 65536 + (buf[2] as u32) * 256 + buf[3] as u32
}

/// Read a big-endian `i64` from the first 8 bytes of the slice.
pub fn read_i64_be(buf: &[u8]) -> (r: i64)
    requires
        buf@.len() >= 8,
    ensures
        r == to_signed(be_uint(buf@, 8), 64),
{
    let u = read_u64_be(buf);
    if u >= 9223372036854775808 {
        ((u - 9223372036854775808) as i64) + i64::MIN
    } else {
        u as i64
    }
}

/// Read a big-endian `u64` from the first 8 bytes of the slice.
pub fn read_u64_be(buf: &[u8]) -> (r: u64)
    requires
        buf@.len() >= 8,
    ensures
        r == be_uint(buf@, 8),
{
    proof { reveal_with_fuel(be_uint, 9); }
    let hi = read_u32_be(buf) as u64;
    let lo = (buf[4] as u64) * 16777216 + (buf[5] as u64) * 65536 + (buf[6] as u64) * 256 + buf[7] as u64;
    hi * 4294967296 + lo
}

// --- Single-value writes ---

/// The bytes of `buf` after writing the `n`-byte big-endian form of `u` at
/// its start.
pub open spec fn written(buf: Seq<u8>, u: int, n: nat) -> Seq<u8> {
    be_bytes(u, n) + buf.subrange(n as int, buf.len() as int)
}

/// Write the `n` big-endian bytes of `u` at the start of `buf`.
fn write_be(buf: &mut [u8], u: u64, n: usize)
    requires
        1 <= n <= 8,
        old(buf)@.len() >= n,
        u < pow256(n as nat),
    ensures
        final(buf)@ == written(old(buf)@, u as int, n as nat),
{
    let mut v = u;
    let mut k = n;
    let ghost full = u as int;
    while k > 0
        invariant
            k <= n,
            n <= 8,
            buf@.len() == old(buf)@.len(),
            buf@.len() >= n,
            be_bytes(full, n as nat) == be_bytes(v as int, k as nat) + buf@.subrange(k as int, n as int),
            forall|j: int| n <= j < buf@.len() ==> buf@[j] == old(buf)@[j],
        decreases k,
    {
        let ghost prev = buf@;
        buf[k - 1] = (v % 256) as u8;
        proof {
            assert(be_bytes(v as int, k as nat) == be_bytes(v as int / 256, (k - 1) as nat).push((v % 256) as u8));
            assert(buf@.subrange(k - 1, n as int) =~= seq![(v % 256) as u8] + prev.subrange(k as int, n as int));
            assert(be_bytes(v as int / 256, (k - 1) as nat).push((v % 256) as u8) + prev.subrange(k as int, n as int)
                =~= be_bytes(v as int / 256, (k - 1) as nat) + buf@.subrange(k - 1, n as int));
        }
        v = v / 256;
        k = k - 1;
    }
    assert(buf@ =~= written(old(buf)@, u as int, n as nat));
}

/// Append the `n` big-endian bytes of `u`.
pub fn push_be(out: &mut Vec<u8>, u: u64, n: usize)
    requires
        1 <= n <= 8,
        u < pow256(n as nat),
    ensures
        final(out)@ == old(out)@ + be_bytes(u as int, n as nat),
{
    let mut one = [0u8; 8];
    write_be(&mut one, u, n);
    let ghost b = be_bytes(u as int, n as nat);
    proof {
        lemma_be_roundtrip(u as int, n as nat, Seq::empty());
    }
    let ghost start = out@;
    let mut j: usize = 0;
    while j < n
        invariant
            j <= n,
            n <= 8,
            one@.len() == 8,
            b.len() == n,
            one@.subrange(0, n as int) == b,
            out@ == start + b.subrange(0, j as int),
        decreases n - j,
    {
        out.push(one[j]);
        j += 1;
        assert(out@ =~= start + b.subrange(0, j as int));
    }
    assert(b.subrange(0, n as int) =~= b);
}

/// Write a `u8` into the first byte of the slice.
pub fn write_u8(buf: &mut [u8], val: u8)
    requires
        old(buf)@.len() >= 1,
    ensures
        final(buf)@ == old(buf)@.update(0, val),
{
    buf[0] = val;
}

/// Write an `i16` in big-endian format into the first 2 bytes of the slice.
pub fn write_i16_be(buf: &mut [u8], val: i16)
    requires
        old(buf)@.len() >= 2,
    ensures
        final(buf)@ == written(old(buf)@, to_unsigned(val as int, 16), 2),
{
    proof { lemma_pow256_values(); }
    let u: u64 = if val >= 0 { val as u64 } else { (val as i32 + 65536) as u64 };
    write_be(buf, u, 2);
}

/// Write a `u16` in big-endian format into the first 2 bytes of the slice.
pub fn write_u16_be(buf: &mut [u8], val: u16)
    requires
        old(buf)@.len() >= 2,
    ensures
        final(buf)@ == written(old(buf)@, val as int, 2),
{
    proof { lemma_pow256_values(); }
    write_be(buf, val as u64, 2);
}

/// Write an `i32` in big-endian format into the first 4 bytes of the slice.
pub fn write_i32_be(buf: &mut [u8], val: i32)
    requires
        old(buf)@.len() >= 4,
    ensures
        final(buf)@ == written(old(buf)@, to_unsigned(val as int, 32), 4),
{
    proof { lemma_pow256_values(); }
    let u: u64 = if val >= 0 { val as u64 } else { (val as i64 + 4294967296) as u64 };
    write_be(buf, u, 4);
}

/// Write a `u32` in big-endian format into the first 4 bytes of the slice.
pub fn write_u32_be(buf: &mut [u8], val: u32)
    requires
        old(buf)@.len() >= 4,
    ensures
        final(buf)@ == written(old(buf)@, val as int, 4),
{
    proof { lemma_pow256_values(); }
    write_be(buf, val as u64, 4);
}

/// Write an `i64` in big-endian format into the first 8 bytes of the slice.
pub fn write_i64_be(buf: &mut [u8], val: i64)
    requires
        old(buf)@.len() >= 8,
    ensures
        final(buf)@ == written(old(buf)@, to_unsigned(val as int, 64), 8),
{
    proof { lemma_pow256_values(); }
    let u: u64 = if val >= 0 { val as u64 } else { (val - i64::MIN) as u64 + 9223372036854775808u64 };
    write_be(buf, u, 8);
}

/// Write a `u64` in big-endian format into the first 8 bytes of the slice.
pub fn write_u64_be(buf: &mut [u8], val: u64)
    requires
        old(buf)@.len() >= 8,
    ensures
        final(buf)@ == written(old(buf)@, val as int, 8),
{
    proof { lemma_pow256_values(); }
    write_be(buf, val, 8);
}

/// Reading what a write put at the start of a buffer gives back the value
/// written: `to_unsigned`/`to_signed` and `be_bytes`/`be_uint` are inverse.
pub proof fn lemma_write_then_read(buf: Seq<u8>, v: int, bits: nat, n: nat)
    requires
        bits == 8 * n,
        n == 2 || n == 4 || n == 8,
        buf.len() >= n,
        -pow2_int(bits) / 2 <= v < pow2_int(bits) / 2,
    ensures
        to_signed(be_uint(written(buf, to_unsigned(v, bits), n), n), bits) == v,
{
    lemma_pow256_values();
    lemma_be_roundtrip(to_unsigned(v, bits), n, buf.subrange(n as int, buf.len() as int));
}

/// Reading what an unsigned write put at the start of a buffer gives back
/// the value written.
pub proof fn lemma_write_then_read_unsigned(buf: Seq<u8>, v: int, n: nat)
    requires
        n == 2 || n == 4 || n == 8,
        buf.len() >= n,
        0 <= v < pow256(n),
    ensures
        be_uint(written(buf, v, n), n) == v,
{
    lemma_be_roundtrip(v, n, buf.subrange(n as int, buf.len() as int));
}

// --- Bulk conversions ---

/// `s` with every `w`-byte chunk reversed.
pub open spec fn swap_chunks(s: Seq<u8>, w: nat) -> Seq<u8> {
    Seq::new(s.len(), |i: int| s[(i / w as int) * w as int + (w - 1 - i % w as int)])
}

/// Reversing every chunk twice restores the buffer.
pub proof fn lemma_swap_chunks_involution(s: Seq<u8>, w: nat)
    requires
        w == 2 || w == 4 || w == 8,
        (s.len() as int) % (w as int) == 0,
    ensures
        swap_chunks(swap_chunks(s, w), w) == s,
{
    let t = swap_chunks(s, w);
    let wi = w as int;
    assert forall|i: int| 0 <= i < s.len() implies #[trigger] swap_chunks(t, w)[i] == s[i] by {
        let q = i / wi;
        let r = i % wi;
        let j = q * wi + (wi - 1 - r);
        assert(i == q * wi + r && 0 <= r < wi) by (nonlinear_arith)
            requires
                wi > 0,
                i >= 0,
                q == i / wi,
                r == i % wi,
        ;
        lemma_chunk_index(i, q, r, wi, s.len() as int);
        assert(j / wi == q && j % wi == wi - 1 - r);
        assert(0 <= j < s.len());
    }
    assert(swap_chunks(t, w) =~= s);
}

proof fn lemma_chunk_index(i: int, q: int, r: int, wi: int, len: int)
    requires
        wi > 0,
        i == q * wi + r,
        0 <= r < wi,
        0 <= i < len,
        len % wi == 0,
    ensures
        (q * wi + (wi - 1 - r)) / wi == q,
        (q * wi + (wi - 1 - r)) % wi == wi - 1 - r,
        0 <= q * wi + (wi - 1 - r) < len,
{
    let j = q * wi + (wi - 1 - r);
    vstd::arithmetic::div_mod::lemma_fundamental_div_mod_converse(j, wi, q, wi - 1 - r);
    assert(q >= 0) by (nonlinear_arith)
        requires i == q * wi + r, 0 <= r < wi, i >= 0, wi > 0;
    let lq = len / wi;
    assert(len == lq * wi) by (nonlinear_arith)
        requires len % wi == 0, wi > 0, lq == len / wi;
    assert(q < lq) by (nonlinear_arith)
        requires i == q * wi + r, 0 <= r, i < len, len == lq * wi, wi > 0;
    assert(j < len) by (nonlinear_arith)
        requires j == q * wi + (wi - 1 - r), q < lq, len == lq * wi, 0 <= r, wi > 0;
}

/// `u16::to_ne_bytes` of one: the byte order this target stores a 16-bit
/// one in, `[1, 0]` on a little-endian target (`vstd::endian::endianness()`
/// is `Little`) and `[0, 1]` on a big-endian one.
#[verifier::external_body]
fn native_bytes_of_one() -> (r: [u8; 2])
    ensures
        r@ == (if vstd::endian::endianness() is Little { seq![1u8, 0u8] } else { seq![0u8, 1u8] }),
{
    1u16.to_ne_bytes()
}

/// Reverse every `w`-byte chunk of `buf` in place when `swap` holds.
fn swap_chunks_if(buf: &mut [u8], w: usize, swap: bool)
    requires
        w == 2 || w == 4 || w == 8,
        (old(buf)@.len() as int) % (w as int) == 0,
    ensures
        final(buf)@ == (if swap { swap_chunks(old(buf)@, w as nat) } else { old(buf)@ }),
{
    if !swap {
        return;
    }
    let n = buf.len();
    let mut c: usize = 0;
    while c < n
        invariant
            n == buf@.len(),
            n == old(buf)@.len(),
            n % w == 0,
            w == 2 || w == 4 || w == 8,
            c % w == 0,
            c <= n,
            forall|i: int| 0 <= i < c ==> buf@[i] == swap_chunks(old(buf)@, w as nat)[i],
            forall|i: int| c <= i < n ==> buf@[i] == old(buf)@[i],
        decreases n - c,
    {
        proof {
            assert(c + w <= n) by (nonlinear_arith)
                requires c < n, c % w == 0, n % w == 0, w > 0;
        }
        let mut k: usize = 0;
        while k < w / 2
            invariant
                n == buf@.len(),
                n == old(buf)@.len(),
                c + w <= n,
                w == 2 || w == 4 || w == 8,
                k <= w / 2,
                forall|i: int| 0 <= i < c ==> buf@[i] == swap_chunks(old(buf)@, w as nat)[i],
                forall|i: int| c + w <= i < n ==> buf@[i] == old(buf)@[i],
                forall|i: int| c <= i < c + k ==> #[trigger] buf@[i] == old(buf)@[2 * c + w - 1 - i],
                forall|i: int| c + w - k <= i < c + w ==> #[trigger] buf@[i] == old(buf)@[2 * c + w - 1 - i],
                forall|i: int| c + k <= i < c + w - k ==> #[trigger] buf@[i] == old(buf)@[i],
            decreases w / 2 - k,
        {
            let a = buf[c + k];
            let b = buf[c + w - 1 - k];
            buf[c + k] = b;
            buf[c + w - 1 - k] = a;
            k += 1;
        }
        proof {
            assert forall|i: int| c <= i < c + w implies buf@[i] == #[trigger] swap_chunks(old(buf)@, w as nat)[i] by {
                let wi = w as int;
                let ci = c as int;
                let q = ci / wi;
                assert(ci == q * wi) by (nonlinear_arith)
                    requires ci % wi == 0, wi > 0, q == ci / wi;
                vstd::arithmetic::div_mod::lemma_fundamental_div_mod_converse(i, wi, q, i - ci);
            }
        }
        c = c + w;
    }
}

/// Big-endian `w`-byte values in the byte order of the executing target:
/// every chunk reversed on a little-endian target, unchanged on a
/// big-endian one (the conversion is its own inverse).
pub open spec fn native_order(s: Seq<u8>, w: nat) -> Seq<u8> {
    if vstd::endian::endianness() is Little { swap_chunks(s, w) } else { s }
}

/// Convert a buffer of big-endian `w`-byte values to the native byte order
/// in place: every chunk is reversed on a little-endian target and left as
/// it is on a big-endian one.
fn buf_be_native(buf: &mut [u8], w: usize)
    requires
        w == 2 || w == 4 || w == 8,
        (old(buf)@.len() as int) % (w as int) == 0,
    ensures
        final(buf)@ == native_order(old(buf)@, w as nat),
{
    let one = native_bytes_of_one();
    let little = one[0] == 1;
    assert(little == (vstd::endian::endianness() is Little));
    swap_chunks_if(buf, w, little);
}

/// Convert a byte buffer of big-endian `i16` values to native endianness in place.
pub fn buf_i16_be_to_native(buf: &mut [u8])
    requires
        old(buf)@.len() % 2 == 0,
    ensures
        final(buf)@ == native_order(old(buf)@, 2),
{
    buf_be_native(buf, 2);
}

/// Convert a byte buffer of big-endian `u16` values to native endianness in place.
pub fn buf_u16_be_to_native(buf: &mut [u8])
    requires
        old(buf)@.len() % 2 == 0,
    ensures
        final(buf)@ == native_order(old(buf)@, 2),
{
    buf_be_native(buf, 2);
}

/// Convert a byte buffer of big-endian `i32` values to native endianness in place.
pub fn buf_i32_be_to_native(buf: &mut [u8])
    requires
        old(buf)@.len() % 4 == 0,
    ensures
        final(buf)@ == native_order(old(buf)@, 4),
{
    buf_be_native(buf, 4);
}

/// Convert a byte buffer of big-endian `u32` values to native endianness in place.
pub fn buf_u32_be_to_native(buf: &mut [u8])
    requires
        old(buf)@.len() % 4 == 0,
    ensures
        final(buf)@ == native_order(old(buf)@, 4),
{
    buf_be_native(buf, 4);
}

/// Convert a byte buffer of big-endian `i64` values to native endianness in place.
pub fn buf_i64_be_to_native(buf: &mut [u8])
    requires
        old(buf)@.len() % 8 == 0,
    ensures
        final(buf)@ == native_order(old(buf)@, 8),
{
    buf_be_native(buf, 8);
}

/// Convert a byte buffer of big-endian `u64` values to native endianness in place.
pub fn buf_u64_be_to_native(buf: &mut [u8])
    requires
        old(buf)@.len() % 8 == 0,
    ensures
        final(buf)@ == native_order(old(buf)@, 8),
{
    buf_be_native(buf, 8);
}

/// Convert a byte buffer of big-endian IEEE `f32` values to native
/// endianness in place (a bit-exact reordering of each 4-byte value).
pub fn buf_f32_be_to_native(buf: &mut [u8])
    requires
        old(buf)@.len() % 4 == 0,
    ensures
        final(buf)@ == native_order(old(buf)@, 4),
{
    buf_be_native(buf, 4);
}

/// Convert a byte buffer of big-endian IEEE `f64` values to native
/// endianness in place (a bit-exact reordering of each 8-byte value).
pub fn buf_f64_be_to_native(buf: &mut [u8])
    requires
        old(buf)@.len() % 8 == 0,
    ensures
        final(buf)@ == native_order(old(buf)@, 8),
{
    buf_be_native(buf, 8);
}

/// Convert a byte buffer of native-endian `i16` values to big-endian in place.
pub fn buf_i16_native_to_be(buf: &mut [u8])
    requires
        old(buf)@.len() % 2 == 0,
    ensures
        final(buf)@ == native_order(old(buf)@, 2),
{
    buf_be_native(buf, 2);
}

/// Convert a byte buffer of native-endian `i32` values to big-endian in place.
pub fn buf_i32_native_to_be(buf: &mut [u8])
    requires
        old(buf)@.len() % 4 == 0,
    ensures
        final(buf)@ == native_order(old(buf)@, 4),
{
    buf_be_native(buf, 4);
}

/// Convert a byte buffer of native-endian `i64` values to big-endian in place.
pub fn buf_i64_native_to_be(buf: &mut [u8])
    requires
        old(buf)@.len() % 8 == 0,
    ensures
        final(buf)@ == native_order(old(buf)@, 8),
{
    buf_be_native(buf, 8);
}

/// Convert a byte buffer of native-endian IEEE `f32` values to big-endian in place.
pub fn buf_f32_native_to_be(buf: &mut [u8])
    requires
        old(buf)@.len() % 4 == 0,
    ensures
        final(buf)@ == native_order(old(buf)@, 4),
{
    buf_be_native(buf, 4);
}

/// Convert a byte buffer of native-endian IEEE `f64` values to big-endian in place.
pub fn buf_f64_native_to_be(buf: &mut [u8])
    requires
        old(buf)@.len() % 8 == 0,
    ensures
        final(buf)@ == native_order(old(buf)@, 8),
{
    buf_be_native(buf, 8);
}

} // verus!
