use fitsio_pure::block::BLOCK_SIZE;
use fitsio_pure::block::CARDS_PER_BLOCK;
use fitsio_pure::block::CARD_SIZE;
use fitsio_pure::block::DATA_PAD_BYTE;
use fitsio_pure::block::HEADER_PAD_BYTE;
use fitsio_pure::block::blocks_needed;
use fitsio_pure::block::pad_data_blocks;
use fitsio_pure::block::pad_header_blocks;
use fitsio_pure::block::padded_byte_len;
use fitsio_pure::block::read_block;
use fitsio_pure::block::write_block;


// ---- blocks_needed ----

#[test]
fn blocks_needed_zero() {
    assert_eq!(blocks_needed(0), 0);
}

#[test]
fn blocks_needed_one_byte() {
    assert_eq!(blocks_needed(1), 1);
}

#[test]
fn blocks_needed_exactly_one_block() {
    assert_eq!(blocks_needed(BLOCK_SIZE), 1);
}

#[test]
fn blocks_needed_one_over() {
    assert_eq!(blocks_needed(BLOCK_SIZE + 1), 2);
}

#[test]
fn blocks_needed_exactly_two_blocks() {
    assert_eq!(blocks_needed(2 * BLOCK_SIZE), 2);
}

#[test]
fn blocks_needed_partial() {
    assert_eq!(blocks_needed(100), 1);
    assert_eq!(blocks_needed(2879), 1);
    assert_eq!(blocks_needed(2881), 2);
    assert_eq!(blocks_needed(5760), 2);
    assert_eq!(blocks_needed(5761), 3);
}

// ---- padded_byte_len ----

#[test]
fn padded_byte_len_zero() {
    assert_eq!(padded_byte_len(0), 0);
}

#[test]
fn padded_byte_len_aligned() {
    assert_eq!(padded_byte_len(BLOCK_SIZE), BLOCK_SIZE);
    assert_eq!(padded_byte_len(2 * BLOCK_SIZE), 2 * BLOCK_SIZE);
}

#[test]
fn padded_byte_len_unaligned() {
    assert_eq!(padded_byte_len(1), BLOCK_SIZE);
    assert_eq!(padded_byte_len(BLOCK_SIZE + 1), 2 * BLOCK_SIZE);
}

// ---- constants ----

#[test]
fn constant_relationships() {
    assert_eq!(BLOCK_SIZE, 2880);
    assert_eq!(CARD_SIZE, 80);
    assert_eq!(CARDS_PER_BLOCK, 36);
    assert_eq!(CARDS_PER_BLOCK * CARD_SIZE, BLOCK_SIZE);
}

// ---- header padding ----

#[test]
fn header_pad_full_block() {
    let src = [0x41u8; BLOCK_SIZE]; // 'A' repeated
    let mut dest = [0u8; BLOCK_SIZE];
    pad_header_blocks(&mut dest, &src);
    assert_eq!(&dest[..], &src[..]);
}

#[test]
fn header_pad_partial_block() {
    let src = [0x41u8; 80]; // one card worth of 'A'
    let mut dest = [0u8; BLOCK_SIZE];
    pad_header_blocks(&mut dest, &src);
    assert_eq!(&dest[..80], &src[..]);
    // Remaining bytes should be ASCII space (0x20)
    for &b in &dest[80..] {
        assert_eq!(b, HEADER_PAD_BYTE);
    }
}

#[test]
fn header_pad_empty() {
    let src: &[u8] = &[];
    let mut dest: [u8; 0] = [];
    pad_header_blocks(&mut dest, src);
    // No bytes to check, just verifying it doesn't panic.
}

#[test]
fn header_pad_multi_block() {
    let src = [0x42u8; BLOCK_SIZE + 100];
    let mut dest = [0u8; 2 * BLOCK_SIZE];
    pad_header_blocks(&mut dest, &src);
    assert_eq!(&dest[..BLOCK_SIZE + 100], &src[..]);
    for &b in &dest[BLOCK_SIZE + 100..] {
        assert_eq!(b, HEADER_PAD_BYTE);
    }
}

// ---- data padding ----

#[test]
fn data_pad_full_block() {
    let src = [0xFFu8; BLOCK_SIZE];
    let mut dest = [0xAA; BLOCK_SIZE];
    pad_data_blocks(&mut dest, &src);
    assert_eq!(&dest[..], &src[..]);
}

#[test]
fn data_pad_partial_block() {
    let src = [0xFFu8; 100];
    let mut dest = [0xAA; BLOCK_SIZE];
    pad_data_blocks(&mut dest, &src);
    assert_eq!(&dest[..100], &src[..]);
    for &b in &dest[100..] {
        assert_eq!(b, DATA_PAD_BYTE);
    }
}

#[test]
fn data_pad_empty() {
    let src: &[u8] = &[];
    let mut dest: [u8; 0] = [];
    pad_data_blocks(&mut dest, src);
}

#[test]
fn data_pad_multi_block() {
    let src = [0xABu8; BLOCK_SIZE + 500];
    let mut dest = [0u8; 2 * BLOCK_SIZE];
    pad_data_blocks(&mut dest, &src);
    assert_eq!(&dest[..BLOCK_SIZE + 500], &src[..]);
    for &b in &dest[BLOCK_SIZE + 500..] {
        assert_eq!(b, DATA_PAD_BYTE);
    }
}

// ---- read_block / write_block ----

#[test]
fn read_block_first() {
    let mut data = [0u8; 2 * BLOCK_SIZE];
    for (i, b) in data.iter_mut().enumerate() {
        *b = (i % 256) as u8;
    }
    let mut block = [0u8; BLOCK_SIZE];
    read_block(&mut block, &data, 0);
    assert_eq!(&block[..], &data[..BLOCK_SIZE]);
}

#[test]
fn read_block_second() {
    let mut data = [0u8; 2 * BLOCK_SIZE];
    for (i, b) in data.iter_mut().enumerate() {
        *b = (i % 256) as u8;
    }
    let mut block = [0u8; BLOCK_SIZE];
    read_block(&mut block, &data, 1);
    assert_eq!(&block[..], &data[BLOCK_SIZE..2 * BLOCK_SIZE]);
}

#[test]
fn write_block_round_trip() {
    let mut original = [0u8; BLOCK_SIZE];
    for (i, b) in original.iter_mut().enumerate() {
        *b = (i % 256) as u8;
    }

    let mut buffer = [0u8; 3 * BLOCK_SIZE];
    write_block(&mut buffer, &original, 1);

    let mut readback = [0u8; BLOCK_SIZE];
    read_block(&mut readback, &buffer, 1);
    assert_eq!(&readback[..], &original[..]);
}

// ---- mismatched dest size panics ----

