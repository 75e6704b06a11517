//! FITS 2880-byte block utilities and constants.
use vstd::prelude::*;

verus! {

/// FITS block size in bytes (each logical record is one block).
pub const BLOCK_SIZE: usize = 2880;

/// FITS card (keyword record) size in bytes.
pub const CARD_SIZE: usize = 80;

/// Number of cards that fit in a single block.
pub const CARDS_PER_BLOCK: usize = 36;

/// Padding byte used for header blocks (ASCII space).
pub const HEADER_PAD_BYTE: u8 = 0x20;

/// Padding byte used for data blocks (zero).
pub const DATA_PAD_BYTE: u8 = 0x00;

/// Number of whole blocks needed to hold `n` bytes (ceiling division).
pub open spec fn spec_blocks_needed(n: int) -> int {
    (n + 2879) / 2880
}

/// Number of bytes in the whole blocks that hold `n` bytes.
pub open spec fn spec_padded_len(n: int) -> int {
    spec_blocks_needed(n) * 2880
}

/// The padded length is the least multiple of 2880 that is at least `n`.
pub proof fn lemma_padded_len_bounds(n: int)
    requires
        n >= 0,
    ensures
        spec_padded_len(n) >= n,
        spec_padded_len(n) < n + 2880,
        spec_padded_len(n) % 2880 == 0,
        n == 0 ==> spec_padded_len(n) == 0,
        n % 2880 == 0 ==> spec_padded_len(n) == n,
{
    assert(spec_padded_len(n) % 2880 == 0) by (nonlinear_arith)
        requires
            spec_padded_len(n) == spec_blocks_needed(n) * 2880,
    ;
}

/// Returns the number of FITS blocks required to hold `num_bytes` bytes.
///
/// 0 bytes need 0 blocks, 1 byte needs 1 block, 2880 bytes need 1 block,
/// 2881 bytes need 2 blocks.
pub fn blocks_needed(num_bytes: usize) -> (r: usize)
    ensures
        r == spec_blocks_needed(num_bytes as int),
{
    let q = num_bytes / BLOCK_SIZE;
    if num_bytes % BLOCK_SIZE == 0 {
        q
    } else {
        q + 1
    }
}

/// Returns the total byte length (in whole blocks) required to hold `num_bytes`.
pub fn padded_byte_len(num_bytes: usize) -> (r: usize)
    requires
        spec_padded_len(num_bytes as int) <= usize::MAX,
    ensures
        r == spec_padded_len(num_bytes as int),
{
    let b = blocks_needed(num_bytes);
    b * BLOCK_SIZE
}

/// Copies `src` into the start of `dest` and fills the rest of `dest` with
/// `pad_byte`.
fn copy_and_pad(dest: &mut [u8], src: &[u8], pad_byte: u8)
    requires
        old(dest)@.len() >= src@.len(),
    ensures
        final(dest)@.len() == old(dest)@.len(),
        final(dest)@ =~= src@ + Seq::new((old(dest)@.len() - src@.len()) as nat, |i: int| pad_byte),
{
    let len = src.len();
    let n = dest.len();
    let mut i: usize = 0;
    while i < n
        invariant
            n == dest@.len(),
            len == src@.len(),
            len <= n,
            i <= n,
            forall|j: int| 0 <= j < i && j < len ==> dest@[j] == src@[j],
            forall|j: int| len <= j < i ==> dest@[j] == pad_byte,
        decreases n - i,
    {
        if i < len {
            dest[i] = src[i];
        } else {
            dest[i] = pad_byte;
        }
        i += 1;
    }
}

/// The result of padding `src` to whole blocks with `pad`.
pub open spec fn spec_pad_blocks(src: Seq<u8>, pad: u8) -> Seq<u8> {
    src + Seq::new((spec_padded_len(src.len() as int) - src.len()) as nat, |i: int| pad)
}

/// Writes `src` into `dest`, padding trailing bytes of the final block with
/// ASCII spaces, as FITS header blocks require.
///
/// `dest` must have length `padded_byte_len(src.len())`.
pub fn pad_header_blocks(dest: &mut [u8], src: &[u8])
    requires
        old(dest)@.len() == spec_padded_len(src@.len() as int),
    ensures
        final(dest)@ == spec_pad_blocks(src@, HEADER_PAD_BYTE),
{
    proof { lemma_padded_len_bounds(src@.len() as int); }
    copy_and_pad(dest, src, HEADER_PAD_BYTE);
}

/// Writes `src` into `dest`, padding trailing bytes of the final block with
/// zero bytes, as FITS data blocks require.
///
/// `dest` must have length `padded_byte_len(src.len())`.
pub fn pad_data_blocks(dest: &mut [u8], src: &[u8])
    requires
        old(dest)@.len() == spec_padded_len(src@.len() as int),
    ensures
        final(dest)@ == spec_pad_blocks(src@, DATA_PAD_BYTE),
{
    proof { lemma_padded_len_bounds(src@.len() as int); }
    copy_and_pad(dest, src, DATA_PAD_BYTE);
}

/// Copies block number `block_index` of `src` into `dest`.
pub fn read_block(dest: &mut [u8; BLOCK_SIZE], src: &[u8], block_index: usize)
    requires
        (block_index + 1) * 2880 <= src@.len(),
    ensures
        final(dest)@ == src@.subrange(block_index * 2880, (block_index + 1) * 2880),
{
    let n = src.len();
    proof {
        assert((block_index + 1) * 2880 == block_index * 2880 + 2880) by (nonlinear_arith);
    }
    let start = block_index * BLOCK_SIZE;
    let mut i: usize = 0;
    while i < BLOCK_SIZE
        invariant
            start == block_index * 2880,
            start + 2880 <= n,
            n == src@.len(),
            i <= 2880,
            dest@.len() == 2880,
            forall|j: int| 0 <= j < i ==> dest@[j] == src@[start + j],
        decreases 2880 - i,
    {
        dest[i] = src[start + i];
        i += 1;
    }
    assert(dest@ =~= src@.subrange(block_index * 2880, (block_index + 1) * 2880));
}

/// Writes `block` into `dest` as block number `block_index`.
pub fn write_block(dest: &mut [u8], block: &[u8; BLOCK_SIZE], block_index: usize)
    requires
        (block_index + 1) * 2880 <= old(dest)@.len(),
    ensures
        final(dest)@.len() == old(dest)@.len(),
        final(dest)@ == old(dest)@.subrange(0, block_index * 2880) + block@
            + old(dest)@.subrange((block_index + 1) * 2880, old(dest)@.len() as int),
{
    let n = dest.len();
    proof {
        assert((block_index + 1) * 2880 == block_index * 2880 + 2880) by (nonlinear_arith);
    }
    let start = block_index * BLOCK_SIZE;
    let mut i: usize = 0;
    while i < BLOCK_SIZE
        invariant
            start == block_index * 2880,
            start + 2880 <= n,
            n == dest@.len(),
            dest@.len() == old(dest)@.len(),
            block@.len() == 2880,
            i <= 2880,
            forall|j: int| 0 <= j < start ==> dest@[j] == old(dest)@[j],
            forall|j: int| start + 2880 <= j < dest@.len() ==> dest@[j] == old(dest)@[j],
            forall|j: int| 0 <= j < i ==> dest@[start + j] == block@[j],
            forall|j: int| start + i <= j < start + 2880 ==> dest@[j] == old(dest)@[j],
        decreases 2880 - i,
    {
        dest[start + i] = block[i];
        i += 1;
    }
    assert(dest@ =~= old(dest)@.subrange(0, block_index * 2880) + block@
        + old(dest)@.subrange((block_index + 1) * 2880, old(dest)@.len() as int));
}

} // verus!
