use fitsio_pure::header::kw;
use fitsio_pure::block::BLOCK_SIZE;
use fitsio_pure::header::Card;
use fitsio_pure::value::Value;
use fitsio_pure::primary::build_primary_header;
use fitsio_pure::checksum::checksum_blocks;
use fitsio_pure::checksum::decode_checksum;
use fitsio_pure::checksum::encode_checksum;
use fitsio_pure::checksum::ones_complement_add;
use fitsio_pure::block::padded_byte_len;
use fitsio_pure::hdu::parse_fits;
use fitsio_pure::header::serialize_header;
use fitsio_pure::checksum::stamp_checksum;
use fitsio_pure::checksum::verify_checksum;
use fitsio_pure::checksum::verify_datasum;


// ---- Encoding/Decoding ----

#[test]
fn encode_zero() {
    let encoded = encode_checksum(0, false);
    assert_eq!(&encoded, b"0000000000000000");
}

#[test]
fn encode_complement_of_max() {
    // complement of 0xFFFFFFFF = 0x00000000, should encode as all zeros.
    let encoded = encode_checksum(0xFFFFFFFF, true);
    assert_eq!(&encoded, b"0000000000000000");
}

#[test]
fn encode_decode_roundtrip() {
    let values: &[u32] = &[0, 1, 42, 1234567890, 0xDEADBEEF, 0xFFFFFFFF];
    for &v in values {
        let encoded = encode_checksum(v, false);
        let decoded = decode_checksum(&encoded, false);
        assert_eq!(decoded, v, "roundtrip failed for {v:#010X}");
    }
}

#[test]
fn encode_decode_complement_roundtrip() {
    let values: &[u32] = &[0, 1, 42, 1234567890, 0xDEADBEEF, 0xFFFFFFFF];
    for &v in values {
        let encoded = encode_checksum(v, true);
        let decoded = decode_checksum(&encoded, true);
        assert_eq!(decoded, v, "complement roundtrip failed for {v:#010X}");
    }
}

#[test]
fn encode_known_value() {
    // cfitsio test vector: encode(1234567890, false) = "dCW2fBU0dBU0dBU0"
    let encoded = encode_checksum(1234567890, false);
    assert_eq!(core::str::from_utf8(&encoded).unwrap(), "dCW2fBU0dBU0dBU0");
}

#[test]
fn decode_known_value() {
    let decoded = decode_checksum(b"dCW2fBU0dBU0dBU0", false);
    assert_eq!(decoded, 1234567890);
}

#[test]
fn encoded_chars_are_alphanumeric() {
    let values: &[u32] = &[0, 1, 255, 65535, 1234567890, 0xDEADBEEF, 0xFFFFFFFF];
    for &v in values {
        let encoded = encode_checksum(v, false);
        for &ch in &encoded {
            assert!(
                ch.is_ascii_alphanumeric(),
                "non-alphanumeric char {ch:#04x} in encoding of {v:#010X}"
            );
        }
    }
}

// ---- Checksum computation ----

#[test]
fn checksum_all_zeros() {
    let data = vec![0u8; BLOCK_SIZE];
    assert_eq!(checksum_blocks(&data), 0);
}

#[test]
fn checksum_all_ff() {
    let data = vec![0xFFu8; BLOCK_SIZE];
    assert_eq!(checksum_blocks(&data), 0xFFFFFFFF);
}

#[test]
fn checksum_complement_sums_to_negative_zero() {
    // A block plus its complement should sum to -0 (0xFFFFFFFF).
    let mut block = vec![0u8; BLOCK_SIZE];
    for (i, b) in block.iter_mut().enumerate() {
        *b = (i % 256) as u8;
    }
    let sum = checksum_blocks(&block);
    let complement = 0xFFFFFFFFu32.wrapping_sub(sum);
    let total = ones_complement_add(sum, complement);
    assert!(total == 0xFFFFFFFF || total == 0);
}

// ---- Ones-complement addition ----

#[test]
fn ones_complement_add_zero() {
    assert_eq!(ones_complement_add(0, 0), 0);
}

#[test]
fn ones_complement_add_identity() {
    assert_eq!(ones_complement_add(0x12345678, 0), 0x12345678);
}

#[test]
fn ones_complement_add_negative_zero() {
    // x + ~x = -0 in ones-complement
    let x = 0x12345678u32;
    let complement = 0xFFFFFFFFu32 - x;
    let result = ones_complement_add(x, complement);
    assert!(result == 0xFFFFFFFF || result == 0);
}

// ---- stamp_checksum ----

#[test]
fn stamp_produces_valid_checksum() {

    let cards = build_primary_header(8, &[10]).unwrap();
    let data = vec![42u8; 10];

    let stamped = stamp_checksum(&cards, &data);

    // Verify DATASUM is present and correct.
    let datasum_card = stamped
        .iter()
        .find(|c| c.keyword_str() == "DATASUM")
        .unwrap();
    let datasum_str = match &datasum_card.value {
        Some(Value::String(s)) => s.clone(),
        _ => panic!("DATASUM should be a string"),
    };
    let datasum_val: u64 = datasum_str.parse().unwrap();
    assert!(datasum_val <= u32::MAX as u64);

    // Verify CHECKSUM is present.
    let checksum_card = stamped
        .iter()
        .find(|c| c.keyword_str() == "CHECKSUM")
        .unwrap();
    let checksum_str = match &checksum_card.value {
        Some(Value::String(s)) => s.clone(),
        _ => panic!("CHECKSUM should be a string"),
    };
    assert_eq!(checksum_str.len(), 16);

    // Serialize and verify the total HDU sums to -0.
    let header_bytes = serialize_header(&stamped);
    let data_padded_len = padded_byte_len(data.len());
    let mut hdu_bytes = Vec::with_capacity(header_bytes.len() + data_padded_len);
    hdu_bytes.extend_from_slice(&header_bytes);
    hdu_bytes.extend_from_slice(&data);
    hdu_bytes.resize(header_bytes.len() + data_padded_len, 0u8);

    let total = checksum_blocks(&hdu_bytes);
    assert!(
        total == 0 || total == 0xFFFFFFFF,
        "HDU checksum should be -0, got {total:#010X}"
    );
}

#[test]
fn stamp_empty_data() {

    let cards = build_primary_header(8, &[]).unwrap();
    let stamped = stamp_checksum(&cards, &[]);

    let datasum_card = stamped
        .iter()
        .find(|c| c.keyword_str() == "DATASUM")
        .unwrap();
    let datasum_str = match &datasum_card.value {
        Some(Value::String(s)) => s.clone(),
        _ => panic!("DATASUM should be a string"),
    };
    assert_eq!(datasum_str, "0");

    // Verify total HDU checksum.
    let header_bytes = serialize_header(&stamped);
    let total = checksum_blocks(&header_bytes);
    assert!(
        total == 0 || total == 0xFFFFFFFF,
        "HDU checksum should be -0, got {total:#010X}"
    );
}

#[test]
fn stamp_replaces_existing_keywords() {

    let mut cards = build_primary_header(8, &[4]).unwrap();
    // Add fake existing CHECKSUM/DATASUM.
    cards.push(Card {
        keyword: kw(b"DATASUM"),
        value: Some(Value::String(String::from("999"))),
        comment: None,
    });
    cards.push(Card {
        keyword: kw(b"CHECKSUM"),
        value: Some(Value::String(String::from("AAAAAAAAAAAAAAAA"))),
        comment: None,
    });

    let data = vec![0u8; 4];
    let stamped = stamp_checksum(&cards, &data);

    // Should have exactly one of each.
    let checksum_count = stamped
        .iter()
        .filter(|c| c.keyword_str() == "CHECKSUM")
        .count();
    let datasum_count = stamped
        .iter()
        .filter(|c| c.keyword_str() == "DATASUM")
        .count();
    assert_eq!(checksum_count, 1);
    assert_eq!(datasum_count, 1);
}

#[test]
fn stamp_then_parse_and_verify() {

    let cards = build_primary_header(16, &[20, 10]).unwrap();
    let data = vec![0xABu8; 400]; // 20*10*2 bytes for BITPIX=16

    let stamped = stamp_checksum(&cards, &data);
    let header_bytes = serialize_header(&stamped);
    let data_padded_len = padded_byte_len(data.len());
    let mut fits_bytes = Vec::with_capacity(header_bytes.len() + data_padded_len);
    fits_bytes.extend_from_slice(&header_bytes);
    fits_bytes.extend_from_slice(&data);
    fits_bytes.resize(header_bytes.len() + data_padded_len, 0u8);

    let fits = parse_fits(&fits_bytes).unwrap();
    let hdu = fits.primary();

    assert!(
        verify_datasum(&fits_bytes, hdu),
        "DATASUM verification failed"
    );
    assert!(
        verify_checksum(&fits_bytes, hdu),
        "CHECKSUM verification failed"
    );
}

#[test]
fn verify_fails_on_corrupted_data() {

    let cards = build_primary_header(8, &[100]).unwrap();
    let data = vec![0u8; 100];

    let stamped = stamp_checksum(&cards, &data);
    let header_bytes = serialize_header(&stamped);
    let data_padded_len = padded_byte_len(data.len());
    let mut fits_bytes = Vec::with_capacity(header_bytes.len() + data_padded_len);
    fits_bytes.extend_from_slice(&header_bytes);
    fits_bytes.extend_from_slice(&data);
    fits_bytes.resize(header_bytes.len() + data_padded_len, 0u8);

    // Corrupt the data.
    fits_bytes[header_bytes.len()] = 0xFF;

    let fits = parse_fits(&fits_bytes).unwrap();
    let hdu = fits.primary();

    assert!(!verify_datasum(&fits_bytes, hdu), "DATASUM should fail");
    assert!(!verify_checksum(&fits_bytes, hdu), "CHECKSUM should fail");
}

