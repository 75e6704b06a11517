use fitsio_pure::block::BLOCK_SIZE;
use fitsio_pure::bintable::BinaryColumnData;
use fitsio_pure::bintable::BinaryColumnDescriptor;
use fitsio_pure::bintable::BinaryColumnType;
use fitsio_pure::header::Card;
use fitsio_pure::hdu::Hdu;
use fitsio_pure::io::Read;
use fitsio_pure::value::Value;
use fitsio_pure::bintable::binary_type_byte_size;
use fitsio_pure::bintable::build_binary_table_cards;
use fitsio_pure::bintable::compute_byte_width;
use fitsio_pure::header::kw;
use fitsio_pure::block::padded_byte_len;
use fitsio_pure::bintable::parse_binary_table_columns;
use fitsio_pure::hdu::parse_fits;
use fitsio_pure::bintable::parse_tform_binary;
use fitsio_pure::bintable::read_binary_column;
use fitsio_pure::bintable::read_binary_row;
use fitsio_pure::endian::read_i32_be;
use fitsio_pure::bintable::serialize_binary_column_value;
use fitsio_pure::bintable::serialize_binary_table;
use fitsio_pure::bintable::serialize_binary_table_hdu;
use fitsio_pure::header::serialize_header;
use fitsio_pure::endian::write_i16_be;
use fitsio_pure::endian::write_i32_be;
use fitsio_pure::endian::write_i64_be;
use fitsio_pure::endian::read_u32_be;
use fitsio_pure::endian::read_u64_be;
use fitsio_pure::endian::write_u32_be;
use fitsio_pure::endian::write_u64_be;
use std::string::String;
use std::vec;

// --- Floating-point values travel as their IEEE bit patterns ---

fn write_f32_be(buf: &mut [u8], v: f32) {
    write_u32_be(buf, v.to_bits());
}

fn write_f64_be(buf: &mut [u8], v: f64) {
    write_u64_be(buf, v.to_bits());
}

fn read_f32_be(buf: &[u8]) -> f32 {
    f32::from_bits(read_u32_be(buf))
}

fn read_f64_be(buf: &[u8]) -> f64 {
    f64::from_bits(read_u64_be(buf))
}

fn f32s(bits: &[u32]) -> Vec<f32> {
    bits.iter().map(|b| f32::from_bits(*b)).collect()
}

fn f64s(bits: &[u64]) -> Vec<f64> {
    bits.iter().map(|b| f64::from_bits(*b)).collect()
}

fn c32s(bits: &[(u32, u32)]) -> Vec<(f32, f32)> {
    bits.iter().map(|(a, b)| (f32::from_bits(*a), f32::from_bits(*b))).collect()
}

fn c64s(bits: &[(u64, u64)]) -> Vec<(f64, f64)> {
    bits.iter().map(|(a, b)| (f64::from_bits(*a), f64::from_bits(*b))).collect()
}

fn float_data(v: Vec<f32>) -> BinaryColumnData {
    BinaryColumnData::Float(v.iter().map(|x| x.to_bits()).collect())
}

fn double_data(v: Vec<f64>) -> BinaryColumnData {
    BinaryColumnData::Double(v.iter().map(|x| x.to_bits()).collect())
}

fn cfloat_data(v: Vec<(f32, f32)>) -> BinaryColumnData {
    BinaryColumnData::ComplexFloat(v.iter().map(|(a, b)| (a.to_bits(), b.to_bits())).collect())
}

fn cdouble_data(v: Vec<(f64, f64)>) -> BinaryColumnData {
    BinaryColumnData::ComplexDouble(v.iter().map(|(a, b)| (a.to_bits(), b.to_bits())).collect())
}

// --- TFORM parsing ---

#[test]
fn parse_tform_single_int() {
    let (repeat, col_type) = parse_tform_binary("1J").unwrap();
    assert_eq!(repeat, 1);
    assert_eq!(col_type, BinaryColumnType::Int);
}

#[test]
fn parse_tform_no_repeat_prefix() {
    let (repeat, col_type) = parse_tform_binary("J").unwrap();
    assert_eq!(repeat, 1);
    assert_eq!(col_type, BinaryColumnType::Int);
}

#[test]
fn parse_tform_ten_floats() {
    let (repeat, col_type) = parse_tform_binary("10E").unwrap();
    assert_eq!(repeat, 10);
    assert_eq!(col_type, BinaryColumnType::Float);
}

#[test]
fn parse_tform_ascii() {
    let (repeat, col_type) = parse_tform_binary("20A").unwrap();
    assert_eq!(repeat, 20);
    assert_eq!(col_type, BinaryColumnType::Ascii);
}

#[test]
fn parse_tform_logical() {
    let (repeat, col_type) = parse_tform_binary("1L").unwrap();
    assert_eq!(repeat, 1);
    assert_eq!(col_type, BinaryColumnType::Logical);
}

#[test]
fn parse_tform_bit() {
    let (repeat, col_type) = parse_tform_binary("1024X").unwrap();
    assert_eq!(repeat, 1024);
    assert_eq!(col_type, BinaryColumnType::Bit);
}

#[test]
fn parse_tform_double() {
    let (repeat, col_type) = parse_tform_binary("1D").unwrap();
    assert_eq!(repeat, 1);
    assert_eq!(col_type, BinaryColumnType::Double);
}

#[test]
fn parse_tform_short() {
    let (repeat, col_type) = parse_tform_binary("3I").unwrap();
    assert_eq!(repeat, 3);
    assert_eq!(col_type, BinaryColumnType::Short);
}

#[test]
fn parse_tform_long() {
    let (repeat, col_type) = parse_tform_binary("1K").unwrap();
    assert_eq!(repeat, 1);
    assert_eq!(col_type, BinaryColumnType::Long);
}

#[test]
fn parse_tform_byte() {
    let (repeat, col_type) = parse_tform_binary("5B").unwrap();
    assert_eq!(repeat, 5);
    assert_eq!(col_type, BinaryColumnType::Byte);
}

#[test]
fn parse_tform_complex_float() {
    let (repeat, col_type) = parse_tform_binary("2C").unwrap();
    assert_eq!(repeat, 2);
    assert_eq!(col_type, BinaryColumnType::ComplexFloat);
}

#[test]
fn parse_tform_complex_double() {
    let (repeat, col_type) = parse_tform_binary("1M").unwrap();
    assert_eq!(repeat, 1);
    assert_eq!(col_type, BinaryColumnType::ComplexDouble);
}

#[test]
fn parse_tform_invalid_type() {
    assert!(parse_tform_binary("1Z").is_err());
}

#[test]
fn parse_tform_empty() {
    assert!(parse_tform_binary("").is_err());
}

#[test]
fn parse_tform_whitespace_trimmed() {
    let (repeat, col_type) = parse_tform_binary("  1J  ").unwrap();
    assert_eq!(repeat, 1);
    assert_eq!(col_type, BinaryColumnType::Int);
}

// --- binary_type_byte_size ---

#[test]
fn byte_sizes() {
    assert_eq!(binary_type_byte_size(&BinaryColumnType::Logical), 1);
    assert_eq!(binary_type_byte_size(&BinaryColumnType::Byte), 1);
    assert_eq!(binary_type_byte_size(&BinaryColumnType::Short), 2);
    assert_eq!(binary_type_byte_size(&BinaryColumnType::Int), 4);
    assert_eq!(binary_type_byte_size(&BinaryColumnType::Long), 8);
    assert_eq!(binary_type_byte_size(&BinaryColumnType::Float), 4);
    assert_eq!(binary_type_byte_size(&BinaryColumnType::Double), 8);
    assert_eq!(binary_type_byte_size(&BinaryColumnType::ComplexFloat), 8);
    assert_eq!(binary_type_byte_size(&BinaryColumnType::ComplexDouble), 16);
    assert_eq!(binary_type_byte_size(&BinaryColumnType::Ascii), 1);
    assert_eq!(binary_type_byte_size(&BinaryColumnType::Bit), 0);
}

// --- compute_byte_width ---

#[test]
fn byte_width_int() {
    assert_eq!(compute_byte_width(1, &BinaryColumnType::Int), 4);
    assert_eq!(compute_byte_width(3, &BinaryColumnType::Int), 12);
}

#[test]
fn byte_width_bit() {
    assert_eq!(compute_byte_width(1, &BinaryColumnType::Bit), 1);
    assert_eq!(compute_byte_width(8, &BinaryColumnType::Bit), 1);
    assert_eq!(compute_byte_width(9, &BinaryColumnType::Bit), 2);
    assert_eq!(compute_byte_width(1024, &BinaryColumnType::Bit), 128);
}

#[test]
fn byte_width_ten_floats() {
    assert_eq!(compute_byte_width(10, &BinaryColumnType::Float), 40);
}

// --- Helper to build test FITS data ---

fn card_val(keyword: &str, value: Value) -> Card {
    Card {
        keyword: kw(keyword.as_bytes()),
        value: Some(value),
        comment: None,
    }
}

fn build_bintable_hdu(header_cards: &[Card], raw_data: &[u8]) -> Vec<u8> {
    let header = serialize_header(header_cards);
    let padded_data = padded_byte_len(raw_data.len());
    let mut result = Vec::with_capacity(header.len() + padded_data);
    result.extend_from_slice(&header);
    let data_offset = result.len();
    result.resize(data_offset + padded_data, 0u8);
    result[data_offset..data_offset + raw_data.len()].copy_from_slice(raw_data);
    result
}

fn make_bintable_header(
    naxis1: usize,
    naxis2: usize,
    tfields: usize,
    tforms: &[&str],
    ttype_names: &[Option<&str>],
) -> Vec<Card> {
    let mut cards = vec![
        card_val("XTENSION", Value::String(String::from("BINTABLE"))),
        card_val("BITPIX", Value::Integer(8)),
        card_val("NAXIS", Value::Integer(2)),
        card_val("NAXIS1", Value::Integer(naxis1 as i64)),
        card_val("NAXIS2", Value::Integer(naxis2 as i64)),
        card_val("PCOUNT", Value::Integer(0)),
        card_val("GCOUNT", Value::Integer(1)),
        card_val("TFIELDS", Value::Integer(tfields as i64)),
    ];

    for (i, tform) in tforms.iter().enumerate() {
        let kw = std::format!("TFORM{}", i + 1);
        cards.push(card_val(&kw, Value::String(String::from(*tform))));
    }
    for (i, name) in ttype_names.iter().enumerate() {
        if let Some(n) = name {
            let kw = std::format!("TTYPE{}", i + 1);
            cards.push(card_val(&kw, Value::String(String::from(*n))));
        }
    }
    cards
}

fn parse_test_hdu(fits_data: &[u8]) -> (Vec<u8>, Hdu) {

    let primary_cards = vec![
        card_val("SIMPLE", Value::Logical(true)),
        card_val("BITPIX", Value::Integer(8)),
        card_val("NAXIS", Value::Integer(0)),
    ];
    let primary_header = serialize_header(&primary_cards);

    let mut full = Vec::new();
    full.extend_from_slice(&primary_header);
    full.extend_from_slice(fits_data);

    let fits = parse_fits(&full).unwrap();
    let hdu = fits.hdus.into_iter().nth(1).unwrap();
    (full, hdu)
}

// --- parse_binary_table_columns ---

#[test]
fn bintable_parse_columns_basic() {
    let cards = make_bintable_header(12, 10, 2, &["1J", "1D"], &[Some("X"), Some("Y")]);
    let columns = parse_binary_table_columns(&cards, 2).unwrap();
    assert_eq!(columns.len(), 2);

    assert_eq!(columns[0].name, Some(String::from("X")));
    assert_eq!(columns[0].repeat, 1);
    assert_eq!(columns[0].col_type, BinaryColumnType::Int);
    assert_eq!(columns[0].byte_width, 4);

    assert_eq!(columns[1].name, Some(String::from("Y")));
    assert_eq!(columns[1].repeat, 1);
    assert_eq!(columns[1].col_type, BinaryColumnType::Double);
    assert_eq!(columns[1].byte_width, 8);
}

#[test]
fn parse_columns_no_names() {
    let cards = make_bintable_header(8, 5, 2, &["1J", "1E"], &[None, None]);
    let columns = parse_binary_table_columns(&cards, 2).unwrap();
    assert!(columns[0].name.is_none());
    assert!(columns[1].name.is_none());
}

// --- Read/write Int column ---

#[test]
fn read_int_column() {
    let naxis1 = 4;
    let naxis2 = 3;
    let header = make_bintable_header(naxis1, naxis2, 1, &["1J"], &[Some("VAL")]);

    let mut raw_data = vec![0u8; naxis1 * naxis2];
    write_i32_be(&mut raw_data[0..], 100);
    write_i32_be(&mut raw_data[4..], 200);
    write_i32_be(&mut raw_data[8..], -300);

    let fits_data = build_bintable_hdu(&header, &raw_data);
    let (full_fits, hdu) = parse_test_hdu(&fits_data);

    let col = read_binary_column(&full_fits, &hdu, 0).unwrap();
    match col {
        BinaryColumnData::Int(vals) => {
            assert_eq!(vals, vec![100, 200, -300]);
        }
        other => panic!("Expected Int, got {:?}", other),
    }
}

// --- Read/write Float column ---

#[test]
fn read_float_column() {
    let naxis1 = 4;
    let naxis2 = 2;
    let header = make_bintable_header(naxis1, naxis2, 1, &["1E"], &[None]);

    let mut raw_data = vec![0u8; naxis1 * naxis2];
    write_f32_be(&mut raw_data[0..], 1.5);
    write_f32_be(&mut raw_data[4..], -2.5);

    let fits_data = build_bintable_hdu(&header, &raw_data);
    let (full_fits, hdu) = parse_test_hdu(&fits_data);

    let col = read_binary_column(&full_fits, &hdu, 0).unwrap();
    match col {
        BinaryColumnData::Float(vals) => {
            let vals = f32s(&vals);
            assert_eq!(vals.len(), 2);
            assert!((vals[0] - 1.5).abs() < 1e-6);
            assert!((vals[1] - (-2.5)).abs() < 1e-6);
        }
        other => panic!("Expected Float, got {:?}", other),
    }
}

// --- Read/write Double column ---

#[test]
fn read_double_column() {
    let naxis1 = 8;
    let naxis2 = 2;
    let header = make_bintable_header(naxis1, naxis2, 1, &["1D"], &[None]);

    let mut raw_data = vec![0u8; naxis1 * naxis2];
    write_f64_be(&mut raw_data[0..], 3.125);
    write_f64_be(&mut raw_data[8..], -2.625);

    let fits_data = build_bintable_hdu(&header, &raw_data);
    let (full_fits, hdu) = parse_test_hdu(&fits_data);

    let col = read_binary_column(&full_fits, &hdu, 0).unwrap();
    match col {
        BinaryColumnData::Double(vals) => {
            let vals = f64s(&vals);
            assert_eq!(vals.len(), 2);
            assert!((vals[0] - 3.125).abs() < 1e-10);
            assert!((vals[1] - (-2.625)).abs() < 1e-10);
        }
        other => panic!("Expected Double, got {:?}", other),
    }
}

// --- Read/write Short column ---

#[test]
fn read_short_column() {
    let naxis1 = 2;
    let naxis2 = 2;
    let header = make_bintable_header(naxis1, naxis2, 1, &["1I"], &[None]);

    let mut raw_data = vec![0u8; naxis1 * naxis2];
    write_i16_be(&mut raw_data[0..], 1000);
    write_i16_be(&mut raw_data[2..], -2000);

    let fits_data = build_bintable_hdu(&header, &raw_data);
    let (full_fits, hdu) = parse_test_hdu(&fits_data);

    let col = read_binary_column(&full_fits, &hdu, 0).unwrap();
    match col {
        BinaryColumnData::Short(vals) => {
            assert_eq!(vals, vec![1000, -2000]);
        }
        other => panic!("Expected Short, got {:?}", other),
    }
}

// --- Read/write Long column ---

#[test]
fn read_long_column() {
    let naxis1 = 8;
    let naxis2 = 2;
    let header = make_bintable_header(naxis1, naxis2, 1, &["1K"], &[None]);

    let mut raw_data = vec![0u8; naxis1 * naxis2];
    write_i64_be(&mut raw_data[0..], i64::MAX);
    write_i64_be(&mut raw_data[8..], i64::MIN);

    let fits_data = build_bintable_hdu(&header, &raw_data);
    let (full_fits, hdu) = parse_test_hdu(&fits_data);

    let col = read_binary_column(&full_fits, &hdu, 0).unwrap();
    match col {
        BinaryColumnData::Long(vals) => {
            assert_eq!(vals, vec![i64::MAX, i64::MIN]);
        }
        other => panic!("Expected Long, got {:?}", other),
    }
}

// --- Read/write Logical column ---

#[test]
fn read_logical_column() {
    let naxis1 = 1;
    let naxis2 = 3;
    let header = make_bintable_header(naxis1, naxis2, 1, &["1L"], &[None]);

    let raw_data = vec![b'T', b'F', b'T'];

    let fits_data = build_bintable_hdu(&header, &raw_data);
    let (full_fits, hdu) = parse_test_hdu(&fits_data);

    let col = read_binary_column(&full_fits, &hdu, 0).unwrap();
    match col {
        BinaryColumnData::Logical(vals) => {
            assert_eq!(vals, vec![true, false, true]);
        }
        other => panic!("Expected Logical, got {:?}", other),
    }
}

// --- Read/write Byte column ---

#[test]
fn read_byte_column() {
    let naxis1 = 3;
    let naxis2 = 2;
    let header = make_bintable_header(naxis1, naxis2, 1, &["3B"], &[None]);

    let raw_data = vec![10, 20, 30, 40, 50, 60];

    let fits_data = build_bintable_hdu(&header, &raw_data);
    let (full_fits, hdu) = parse_test_hdu(&fits_data);

    let col = read_binary_column(&full_fits, &hdu, 0).unwrap();
    match col {
        BinaryColumnData::Byte(vals) => {
            assert_eq!(vals, vec![10, 20, 30, 40, 50, 60]);
        }
        other => panic!("Expected Byte, got {:?}", other),
    }
}

// --- Read/write Ascii column ---

#[test]
fn read_ascii_column() {
    let naxis1 = 8;
    let naxis2 = 2;
    let header = make_bintable_header(naxis1, naxis2, 1, &["8A"], &[Some("NAME")]);

    let mut raw_data = vec![b' '; naxis1 * naxis2];
    raw_data[..5].copy_from_slice(b"Hello");
    raw_data[8..13].copy_from_slice(b"World");

    let fits_data = build_bintable_hdu(&header, &raw_data);
    let (full_fits, hdu) = parse_test_hdu(&fits_data);

    let col = read_binary_column(&full_fits, &hdu, 0).unwrap();
    match col {
        BinaryColumnData::Ascii(vals) => {
            assert_eq!(vals[0], "Hello");
            assert_eq!(vals[1], "World");
        }
        other => panic!("Expected Ascii, got {:?}", other),
    }
}

// --- Read/write Bit column ---

#[test]
fn read_bit_column() {
    let naxis1 = 2;
    let naxis2 = 2;
    let header = make_bintable_header(naxis1, naxis2, 1, &["16X"], &[None]);

    let raw_data = vec![0xFF, 0x00, 0xAA, 0x55];

    let fits_data = build_bintable_hdu(&header, &raw_data);
    let (full_fits, hdu) = parse_test_hdu(&fits_data);

    let col = read_binary_column(&full_fits, &hdu, 0).unwrap();
    match col {
        BinaryColumnData::Bit(vals) => {
            assert_eq!(vals.len(), 2);
            assert_eq!(vals[0], vec![0xFF, 0x00]);
            assert_eq!(vals[1], vec![0xAA, 0x55]);
        }
        other => panic!("Expected Bit, got {:?}", other),
    }
}

// --- Read/write ComplexFloat column ---

#[test]
fn read_complex_float_column() {
    let naxis1 = 8;
    let naxis2 = 2;
    let header = make_bintable_header(naxis1, naxis2, 1, &["1C"], &[None]);

    let mut raw_data = vec![0u8; naxis1 * naxis2];
    write_f32_be(&mut raw_data[0..], 1.0);
    write_f32_be(&mut raw_data[4..], 2.0);
    write_f32_be(&mut raw_data[8..], -3.0);
    write_f32_be(&mut raw_data[12..], 4.0);

    let fits_data = build_bintable_hdu(&header, &raw_data);
    let (full_fits, hdu) = parse_test_hdu(&fits_data);

    let col = read_binary_column(&full_fits, &hdu, 0).unwrap();
    match col {
        BinaryColumnData::ComplexFloat(vals) => {
            let vals = c32s(&vals);
            assert_eq!(vals.len(), 2);
            assert!((vals[0].0 - 1.0).abs() < 1e-6);
            assert!((vals[0].1 - 2.0).abs() < 1e-6);
            assert!((vals[1].0 - (-3.0)).abs() < 1e-6);
            assert!((vals[1].1 - 4.0).abs() < 1e-6);
        }
        other => panic!("Expected ComplexFloat, got {:?}", other),
    }
}

// --- Read/write ComplexDouble column ---

#[test]
fn read_complex_double_column() {
    let naxis1 = 16;
    let naxis2 = 1;
    let header = make_bintable_header(naxis1, naxis2, 1, &["1M"], &[None]);

    let mut raw_data = vec![0u8; naxis1 * naxis2];
    write_f64_be(&mut raw_data[0..], 1.5);
    write_f64_be(&mut raw_data[8..], -2.5);

    let fits_data = build_bintable_hdu(&header, &raw_data);
    let (full_fits, hdu) = parse_test_hdu(&fits_data);

    let col = read_binary_column(&full_fits, &hdu, 0).unwrap();
    match col {
        BinaryColumnData::ComplexDouble(vals) => {
            let vals = c64s(&vals);
            assert_eq!(vals.len(), 1);
            assert!((vals[0].0 - 1.5).abs() < 1e-10);
            assert!((vals[0].1 - (-2.5)).abs() < 1e-10);
        }
        other => panic!("Expected ComplexDouble, got {:?}", other),
    }
}

// --- Multi-column table ---

#[test]
fn bintable_read_multi_column_table() {
    // 2 columns: 1J (4 bytes) + 1E (4 bytes) = 8 bytes per row
    let naxis1 = 8;
    let naxis2 = 2;
    let header =
        make_bintable_header(naxis1, naxis2, 2, &["1J", "1E"], &[Some("ID"), Some("VAL")]);

    let mut raw_data = vec![0u8; naxis1 * naxis2];
    // Row 0: ID=42, VAL=1.5
    write_i32_be(&mut raw_data[0..], 42);
    write_f32_be(&mut raw_data[4..], 1.5);
    // Row 1: ID=99, VAL=-3.0
    write_i32_be(&mut raw_data[8..], 99);
    write_f32_be(&mut raw_data[12..], -3.0);

    let fits_data = build_bintable_hdu(&header, &raw_data);
    let (full_fits, hdu) = parse_test_hdu(&fits_data);

    let col0 = read_binary_column(&full_fits, &hdu, 0).unwrap();
    match col0 {
        BinaryColumnData::Int(vals) => assert_eq!(vals, vec![42, 99]),
        other => panic!("Expected Int, got {:?}", other),
    }

    let col1 = read_binary_column(&full_fits, &hdu, 1).unwrap();
    match col1 {
        BinaryColumnData::Float(vals) => {
            let vals = f32s(&vals);
            assert!((vals[0] - 1.5).abs() < 1e-6);
            assert!((vals[1] - (-3.0)).abs() < 1e-6);
        }
        other => panic!("Expected Float, got {:?}", other),
    }
}

// --- Repeat count handling ---

#[test]
fn read_repeat_count_floats() {
    // Column with 3 floats per cell: "3E" = 12 bytes
    let naxis1 = 12;
    let naxis2 = 2;
    let header = make_bintable_header(naxis1, naxis2, 1, &["3E"], &[None]);

    let mut raw_data = vec![0u8; naxis1 * naxis2];
    // Row 0: [1.0, 2.0, 3.0]
    write_f32_be(&mut raw_data[0..], 1.0);
    write_f32_be(&mut raw_data[4..], 2.0);
    write_f32_be(&mut raw_data[8..], 3.0);
    // Row 1: [4.0, 5.0, 6.0]
    write_f32_be(&mut raw_data[12..], 4.0);
    write_f32_be(&mut raw_data[16..], 5.0);
    write_f32_be(&mut raw_data[20..], 6.0);

    let fits_data = build_bintable_hdu(&header, &raw_data);
    let (full_fits, hdu) = parse_test_hdu(&fits_data);

    let col = read_binary_column(&full_fits, &hdu, 0).unwrap();
    match col {
        BinaryColumnData::Float(vals) => {
            let vals = f32s(&vals);
            assert_eq!(vals.len(), 6);
            assert!((vals[0] - 1.0).abs() < 1e-6);
            assert!((vals[1] - 2.0).abs() < 1e-6);
            assert!((vals[2] - 3.0).abs() < 1e-6);
            assert!((vals[3] - 4.0).abs() < 1e-6);
            assert!((vals[4] - 5.0).abs() < 1e-6);
            assert!((vals[5] - 6.0).abs() < 1e-6);
        }
        other => panic!("Expected Float, got {:?}", other),
    }
}

// --- read_binary_row ---

#[test]
fn bintable_read_row_basic() {
    let naxis1 = 12;
    let naxis2 = 2;
    let header =
        make_bintable_header(naxis1, naxis2, 2, &["1J", "1D"], &[Some("ID"), Some("VAL")]);

    let mut raw_data = vec![0u8; naxis1 * naxis2];
    // Row 0: ID=10, VAL=1.5
    write_i32_be(&mut raw_data[0..], 10);
    write_f64_be(&mut raw_data[4..], 1.5);
    // Row 1: ID=20, VAL=-2.5
    write_i32_be(&mut raw_data[12..], 20);
    write_f64_be(&mut raw_data[16..], -2.5);

    let fits_data = build_bintable_hdu(&header, &raw_data);
    let (full_fits, hdu) = parse_test_hdu(&fits_data);

    let row0 = read_binary_row(&full_fits, &hdu, 0).unwrap();
    assert_eq!(row0.len(), 2);
    match &row0[0] {
        BinaryColumnData::Int(vals) => assert_eq!(vals, &[10]),
        other => panic!("Expected Int, got {:?}", other),
    }
    match &row0[1] {
        BinaryColumnData::Double(vals) => {
            let vals = f64s(&vals);
            assert!((vals[0] - 1.5).abs() < 1e-10);
        }
        other => panic!("Expected Double, got {:?}", other),
    }

    let row1 = read_binary_row(&full_fits, &hdu, 1).unwrap();
    match &row1[0] {
        BinaryColumnData::Int(vals) => assert_eq!(vals, &[20]),
        other => panic!("Expected Int, got {:?}", other),
    }
    match &row1[1] {
        BinaryColumnData::Double(vals) => {
            let vals = f64s(&vals);
            assert!((vals[0] - (-2.5)).abs() < 1e-10);
        }
        other => panic!("Expected Double, got {:?}", other),
    }
}

#[test]
fn bintable_read_row_out_of_bounds() {
    let naxis1 = 4;
    let naxis2 = 1;
    let header = make_bintable_header(naxis1, naxis2, 1, &["1J"], &[None]);

    let mut raw_data = vec![0u8; naxis1 * naxis2];
    write_i32_be(&mut raw_data[0..], 42);

    let fits_data = build_bintable_hdu(&header, &raw_data);
    let (full_fits, hdu) = parse_test_hdu(&fits_data);

    assert!(read_binary_row(&full_fits, &hdu, 1).is_err());
}

// --- serialize_binary_column_value ---

#[test]
fn serialize_int_value() {
    let data = BinaryColumnData::Int(vec![42, -99]);
    let bytes = serialize_binary_column_value(&BinaryColumnType::Int, 1, &data, 0).unwrap();
    assert_eq!(bytes.len(), 4);
    assert_eq!(read_i32_be(&bytes), 42);

    let bytes = serialize_binary_column_value(&BinaryColumnType::Int, 1, &data, 1).unwrap();
    assert_eq!(read_i32_be(&bytes), -99);
}

#[test]
fn serialize_float_value() {
    let data = float_data(vec![1.5, -2.5]);
    let bytes = serialize_binary_column_value(&BinaryColumnType::Float, 1, &data, 0).unwrap();
    assert_eq!(bytes.len(), 4);
    assert!((read_f32_be(&bytes) - 1.5).abs() < 1e-6);
}

#[test]
fn serialize_double_value() {
    let data = double_data(vec![3.125]);
    let bytes = serialize_binary_column_value(&BinaryColumnType::Double, 1, &data, 0).unwrap();
    assert_eq!(bytes.len(), 8);
    assert!((read_f64_be(&bytes) - 3.125).abs() < 1e-10);
}

#[test]
fn serialize_logical_value() {
    let data = BinaryColumnData::Logical(vec![true, false]);
    let bytes = serialize_binary_column_value(&BinaryColumnType::Logical, 1, &data, 0).unwrap();
    assert_eq!(bytes, vec![b'T']);
    let bytes = serialize_binary_column_value(&BinaryColumnType::Logical, 1, &data, 1).unwrap();
    assert_eq!(bytes, vec![b'F']);
}

#[test]
fn serialize_ascii_value() {
    let data = BinaryColumnData::Ascii(vec![String::from("Hi")]);
    let bytes = serialize_binary_column_value(&BinaryColumnType::Ascii, 5, &data, 0).unwrap();
    assert_eq!(bytes.len(), 5);
    assert_eq!(&bytes[..2], b"Hi");
    assert_eq!(&bytes[2..], b"   ");
}

#[test]
fn serialize_type_mismatch() {
    let data = BinaryColumnData::Int(vec![42]);
    let result = serialize_binary_column_value(&BinaryColumnType::Float, 1, &data, 0);
    assert!(result.is_err());
}

// --- build_binary_table_cards ---

#[test]
fn bintable_build_cards_basic() {
    let columns = vec![
        BinaryColumnDescriptor {
            name: Some(String::from("ID")),
            repeat: 1,
            col_type: BinaryColumnType::Int,
            byte_width: 4,
        },
        BinaryColumnDescriptor {
            name: Some(String::from("VAL")),
            repeat: 1,
            col_type: BinaryColumnType::Double,
            byte_width: 8,
        },
    ];

    let cards = build_binary_table_cards(&columns, 100, 0).unwrap();

    let xtension = cards
        .iter()
        .find(|c| c.keyword_str() == "XTENSION")
        .unwrap();
    assert_eq!(
        xtension.value,
        Some(Value::String(String::from("BINTABLE")))
    );

    let naxis1 = cards.iter().find(|c| c.keyword_str() == "NAXIS1").unwrap();
    assert_eq!(naxis1.value, Some(Value::Integer(12)));

    let naxis2 = cards.iter().find(|c| c.keyword_str() == "NAXIS2").unwrap();
    assert_eq!(naxis2.value, Some(Value::Integer(100)));

    let tfields = cards.iter().find(|c| c.keyword_str() == "TFIELDS").unwrap();
    assert_eq!(tfields.value, Some(Value::Integer(2)));

    let tform1 = cards.iter().find(|c| c.keyword_str() == "TFORM1").unwrap();
    assert_eq!(tform1.value, Some(Value::String(String::from("1J"))));

    let ttype1 = cards.iter().find(|c| c.keyword_str() == "TTYPE1").unwrap();
    assert_eq!(ttype1.value, Some(Value::String(String::from("ID"))));

    let tform2 = cards.iter().find(|c| c.keyword_str() == "TFORM2").unwrap();
    assert_eq!(tform2.value, Some(Value::String(String::from("1D"))));
}

// --- serialize_binary_table ---

#[test]
fn serialize_table_padded() {
    let columns = vec![BinaryColumnDescriptor {
        name: None,
        repeat: 1,
        col_type: BinaryColumnType::Int,
        byte_width: 4,
    }];
    let col_data = vec![BinaryColumnData::Int(vec![1, 2, 3])];

    let buf = serialize_binary_table(&columns, &col_data, 3).unwrap();
    assert_eq!(buf.len() % BLOCK_SIZE, 0);
    assert_eq!(buf.len(), BLOCK_SIZE);

    assert_eq!(read_i32_be(&buf[0..]), 1);
    assert_eq!(read_i32_be(&buf[4..]), 2);
    assert_eq!(read_i32_be(&buf[8..]), 3);

    // Padding should be zeros
    for &b in &buf[12..] {
        assert_eq!(b, 0);
    }
}

#[test]
fn serialize_table_mismatched_columns() {
    let columns = vec![BinaryColumnDescriptor {
        name: None,
        repeat: 1,
        col_type: BinaryColumnType::Int,
        byte_width: 4,
    }];
    let col_data: Vec<BinaryColumnData> = vec![];
    assert!(serialize_binary_table(&columns, &col_data, 1).is_err());
}

// --- Round-trip tests ---

#[test]
fn roundtrip_int_column() {
    let columns = vec![BinaryColumnDescriptor {
        name: Some(String::from("X")),
        repeat: 1,
        col_type: BinaryColumnType::Int,
        byte_width: 4,
    }];
    let original = vec![BinaryColumnData::Int(vec![10, 20, 30])];
    let naxis2 = 3;

    let data_bytes = serialize_binary_table(&columns, &original, naxis2).unwrap();
    let cards = build_binary_table_cards(&columns, naxis2, 0).unwrap();
    let header_bytes = serialize_header(&cards);

    let mut fits = Vec::new();
    // Prepend a primary HDU
    let primary_cards = vec![
        card_val("SIMPLE", Value::Logical(true)),
        card_val("BITPIX", Value::Integer(8)),
        card_val("NAXIS", Value::Integer(0)),
    ];
    let primary_header = serialize_header(&primary_cards);
    fits.extend_from_slice(&primary_header);
    fits.extend_from_slice(&header_bytes);
    fits.extend_from_slice(&data_bytes);

    let parsed = fitsio_pure::hdu::parse_fits(&fits).unwrap();
    let hdu = parsed.get(1).unwrap();

    let col = read_binary_column(&fits, hdu, 0).unwrap();
    assert_eq!(col, BinaryColumnData::Int(vec![10, 20, 30]));
}

#[test]
fn bintable_roundtrip_float_column() {
    let columns = vec![BinaryColumnDescriptor {
        name: None,
        repeat: 1,
        col_type: BinaryColumnType::Float,
        byte_width: 4,
    }];
    let original = vec![float_data(vec![1.5, -2.5, 0.0])];
    let naxis2 = 3;

    let data_bytes = serialize_binary_table(&columns, &original, naxis2).unwrap();
    let cards = build_binary_table_cards(&columns, naxis2, 0).unwrap();
    let header_bytes = serialize_header(&cards);

    let mut fits = Vec::new();
    let primary_cards = vec![
        card_val("SIMPLE", Value::Logical(true)),
        card_val("BITPIX", Value::Integer(8)),
        card_val("NAXIS", Value::Integer(0)),
    ];
    fits.extend_from_slice(&serialize_header(&primary_cards));
    fits.extend_from_slice(&header_bytes);
    fits.extend_from_slice(&data_bytes);

    let parsed = fitsio_pure::hdu::parse_fits(&fits).unwrap();
    let hdu = parsed.get(1).unwrap();
    let col = read_binary_column(&fits, hdu, 0).unwrap();
    assert_eq!(col, float_data(vec![1.5, -2.5, 0.0]));
}

#[test]
fn roundtrip_double_column() {
    let columns = vec![BinaryColumnDescriptor {
        name: None,
        repeat: 1,
        col_type: BinaryColumnType::Double,
        byte_width: 8,
    }];
    let original = vec![double_data(vec![3.125, -2.625])];
    let naxis2 = 2;

    let data_bytes = serialize_binary_table(&columns, &original, naxis2).unwrap();
    let cards = build_binary_table_cards(&columns, naxis2, 0).unwrap();
    let header_bytes = serialize_header(&cards);

    let mut fits = Vec::new();
    let primary_cards = vec![
        card_val("SIMPLE", Value::Logical(true)),
        card_val("BITPIX", Value::Integer(8)),
        card_val("NAXIS", Value::Integer(0)),
    ];
    fits.extend_from_slice(&serialize_header(&primary_cards));
    fits.extend_from_slice(&header_bytes);
    fits.extend_from_slice(&data_bytes);

    let parsed = fitsio_pure::hdu::parse_fits(&fits).unwrap();
    let hdu = parsed.get(1).unwrap();
    let col = read_binary_column(&fits, hdu, 0).unwrap();
    match col {
        BinaryColumnData::Double(vals) => {
            let vals = f64s(&vals);
            assert!((vals[0] - 3.125).abs() < 1e-10);
            assert!((vals[1] - (-2.625)).abs() < 1e-10);
        }
        other => panic!("Expected Double, got {:?}", other),
    }
}

#[test]
fn bintable_roundtrip_multi_column() {
    let columns = vec![
        BinaryColumnDescriptor {
            name: Some(String::from("ID")),
            repeat: 1,
            col_type: BinaryColumnType::Int,
            byte_width: 4,
        },
        BinaryColumnDescriptor {
            name: Some(String::from("NAME")),
            repeat: 10,
            col_type: BinaryColumnType::Ascii,
            byte_width: 10,
        },
        BinaryColumnDescriptor {
            name: Some(String::from("VALUE")),
            repeat: 1,
            col_type: BinaryColumnType::Double,
            byte_width: 8,
        },
    ];
    let col_data = vec![
        BinaryColumnData::Int(vec![1, 2]),
        BinaryColumnData::Ascii(vec![String::from("alpha"), String::from("beta")]),
        double_data(vec![1.5, 2.5]),
    ];
    let naxis2 = 2;

    let data_bytes = serialize_binary_table(&columns, &col_data, naxis2).unwrap();
    let cards = build_binary_table_cards(&columns, naxis2, 0).unwrap();
    let header_bytes = serialize_header(&cards);

    let mut fits = Vec::new();
    let primary_cards = vec![
        card_val("SIMPLE", Value::Logical(true)),
        card_val("BITPIX", Value::Integer(8)),
        card_val("NAXIS", Value::Integer(0)),
    ];
    fits.extend_from_slice(&serialize_header(&primary_cards));
    fits.extend_from_slice(&header_bytes);
    fits.extend_from_slice(&data_bytes);

    let parsed = fitsio_pure::hdu::parse_fits(&fits).unwrap();
    let hdu = parsed.get(1).unwrap();

    let id_col = read_binary_column(&fits, hdu, 0).unwrap();
    assert_eq!(id_col, BinaryColumnData::Int(vec![1, 2]));

    let name_col = read_binary_column(&fits, hdu, 1).unwrap();
    match name_col {
        BinaryColumnData::Ascii(vals) => {
            assert_eq!(vals[0], "alpha");
            assert_eq!(vals[1], "beta");
        }
        other => panic!("Expected Ascii, got {:?}", other),
    }

    let val_col = read_binary_column(&fits, hdu, 2).unwrap();
    match val_col {
        BinaryColumnData::Double(vals) => {
            let vals = f64s(&vals);
            assert!((vals[0] - 1.5).abs() < 1e-10);
            assert!((vals[1] - 2.5).abs() < 1e-10);
        }
        other => panic!("Expected Double, got {:?}", other),
    }
}

#[test]
fn roundtrip_logical_column() {
    let columns = vec![BinaryColumnDescriptor {
        name: None,
        repeat: 1,
        col_type: BinaryColumnType::Logical,
        byte_width: 1,
    }];
    let original = vec![BinaryColumnData::Logical(vec![true, false, true])];
    let naxis2 = 3;

    let data_bytes = serialize_binary_table(&columns, &original, naxis2).unwrap();
    let cards = build_binary_table_cards(&columns, naxis2, 0).unwrap();
    let header_bytes = serialize_header(&cards);

    let mut fits = Vec::new();
    let primary_cards = vec![
        card_val("SIMPLE", Value::Logical(true)),
        card_val("BITPIX", Value::Integer(8)),
        card_val("NAXIS", Value::Integer(0)),
    ];
    fits.extend_from_slice(&serialize_header(&primary_cards));
    fits.extend_from_slice(&header_bytes);
    fits.extend_from_slice(&data_bytes);

    let parsed = fitsio_pure::hdu::parse_fits(&fits).unwrap();
    let hdu = parsed.get(1).unwrap();
    let col = read_binary_column(&fits, hdu, 0).unwrap();
    assert_eq!(col, BinaryColumnData::Logical(vec![true, false, true]));
}

#[test]
fn roundtrip_short_column() {
    let columns = vec![BinaryColumnDescriptor {
        name: None,
        repeat: 1,
        col_type: BinaryColumnType::Short,
        byte_width: 2,
    }];
    let original = vec![BinaryColumnData::Short(vec![100, -200])];
    let naxis2 = 2;

    let data_bytes = serialize_binary_table(&columns, &original, naxis2).unwrap();
    let cards = build_binary_table_cards(&columns, naxis2, 0).unwrap();
    let header_bytes = serialize_header(&cards);

    let mut fits = Vec::new();
    let primary_cards = vec![
        card_val("SIMPLE", Value::Logical(true)),
        card_val("BITPIX", Value::Integer(8)),
        card_val("NAXIS", Value::Integer(0)),
    ];
    fits.extend_from_slice(&serialize_header(&primary_cards));
    fits.extend_from_slice(&header_bytes);
    fits.extend_from_slice(&data_bytes);

    let parsed = fitsio_pure::hdu::parse_fits(&fits).unwrap();
    let hdu = parsed.get(1).unwrap();
    let col = read_binary_column(&fits, hdu, 0).unwrap();
    assert_eq!(col, BinaryColumnData::Short(vec![100, -200]));
}

#[test]
fn roundtrip_long_column() {
    let columns = vec![BinaryColumnDescriptor {
        name: None,
        repeat: 1,
        col_type: BinaryColumnType::Long,
        byte_width: 8,
    }];
    let original = vec![BinaryColumnData::Long(vec![i64::MAX, i64::MIN])];
    let naxis2 = 2;

    let data_bytes = serialize_binary_table(&columns, &original, naxis2).unwrap();
    let cards = build_binary_table_cards(&columns, naxis2, 0).unwrap();
    let header_bytes = serialize_header(&cards);

    let mut fits = Vec::new();
    let primary_cards = vec![
        card_val("SIMPLE", Value::Logical(true)),
        card_val("BITPIX", Value::Integer(8)),
        card_val("NAXIS", Value::Integer(0)),
    ];
    fits.extend_from_slice(&serialize_header(&primary_cards));
    fits.extend_from_slice(&header_bytes);
    fits.extend_from_slice(&data_bytes);

    let parsed = fitsio_pure::hdu::parse_fits(&fits).unwrap();
    let hdu = parsed.get(1).unwrap();
    let col = read_binary_column(&fits, hdu, 0).unwrap();
    assert_eq!(col, BinaryColumnData::Long(vec![i64::MAX, i64::MIN]));
}

#[test]
fn roundtrip_byte_column() {
    let columns = vec![BinaryColumnDescriptor {
        name: None,
        repeat: 3,
        col_type: BinaryColumnType::Byte,
        byte_width: 3,
    }];
    let original = vec![BinaryColumnData::Byte(vec![10, 20, 30, 40, 50, 60])];
    let naxis2 = 2;

    let data_bytes = serialize_binary_table(&columns, &original, naxis2).unwrap();
    let cards = build_binary_table_cards(&columns, naxis2, 0).unwrap();
    let header_bytes = serialize_header(&cards);

    let mut fits = Vec::new();
    let primary_cards = vec![
        card_val("SIMPLE", Value::Logical(true)),
        card_val("BITPIX", Value::Integer(8)),
        card_val("NAXIS", Value::Integer(0)),
    ];
    fits.extend_from_slice(&serialize_header(&primary_cards));
    fits.extend_from_slice(&header_bytes);
    fits.extend_from_slice(&data_bytes);

    let parsed = fitsio_pure::hdu::parse_fits(&fits).unwrap();
    let hdu = parsed.get(1).unwrap();
    let col = read_binary_column(&fits, hdu, 0).unwrap();
    assert_eq!(col, BinaryColumnData::Byte(vec![10, 20, 30, 40, 50, 60]));
}

#[test]
fn roundtrip_complex_float_column() {
    let columns = vec![BinaryColumnDescriptor {
        name: None,
        repeat: 1,
        col_type: BinaryColumnType::ComplexFloat,
        byte_width: 8,
    }];
    let original = vec![cfloat_data(vec![
        (1.0, 2.0),
        (-3.0, 4.0),
    ])];
    let naxis2 = 2;

    let data_bytes = serialize_binary_table(&columns, &original, naxis2).unwrap();
    let cards = build_binary_table_cards(&columns, naxis2, 0).unwrap();
    let header_bytes = serialize_header(&cards);

    let mut fits = Vec::new();
    let primary_cards = vec![
        card_val("SIMPLE", Value::Logical(true)),
        card_val("BITPIX", Value::Integer(8)),
        card_val("NAXIS", Value::Integer(0)),
    ];
    fits.extend_from_slice(&serialize_header(&primary_cards));
    fits.extend_from_slice(&header_bytes);
    fits.extend_from_slice(&data_bytes);

    let parsed = fitsio_pure::hdu::parse_fits(&fits).unwrap();
    let hdu = parsed.get(1).unwrap();
    let col = read_binary_column(&fits, hdu, 0).unwrap();
    assert_eq!(
        col,
        cfloat_data(vec![(1.0, 2.0), (-3.0, 4.0)])
    );
}

#[test]
fn roundtrip_complex_double_column() {
    let columns = vec![BinaryColumnDescriptor {
        name: None,
        repeat: 1,
        col_type: BinaryColumnType::ComplexDouble,
        byte_width: 16,
    }];
    let original = vec![cdouble_data(vec![(1.5, -2.5)])];
    let naxis2 = 1;

    let data_bytes = serialize_binary_table(&columns, &original, naxis2).unwrap();
    let cards = build_binary_table_cards(&columns, naxis2, 0).unwrap();
    let header_bytes = serialize_header(&cards);

    let mut fits = Vec::new();
    let primary_cards = vec![
        card_val("SIMPLE", Value::Logical(true)),
        card_val("BITPIX", Value::Integer(8)),
        card_val("NAXIS", Value::Integer(0)),
    ];
    fits.extend_from_slice(&serialize_header(&primary_cards));
    fits.extend_from_slice(&header_bytes);
    fits.extend_from_slice(&data_bytes);

    let parsed = fitsio_pure::hdu::parse_fits(&fits).unwrap();
    let hdu = parsed.get(1).unwrap();
    let col = read_binary_column(&fits, hdu, 0).unwrap();
    assert_eq!(col, cdouble_data(vec![(1.5, -2.5)]));
}

#[test]
fn col_index_out_of_bounds() {
    let naxis1 = 4;
    let naxis2 = 1;
    let header = make_bintable_header(naxis1, naxis2, 1, &["1J"], &[None]);

    let mut raw_data = vec![0u8; naxis1 * naxis2];
    write_i32_be(&mut raw_data[0..], 42);

    let fits_data = build_bintable_hdu(&header, &raw_data);
    let (full_fits, hdu) = parse_test_hdu(&fits_data);

    assert!(read_binary_column(&full_fits, &hdu, 1).is_err());
}

#[test]
fn serialize_binary_table_hdu_produces_valid_fits() {
    let columns = vec![
        BinaryColumnDescriptor {
            name: Some(String::from("X")),
            repeat: 1,
            col_type: BinaryColumnType::Int,
            byte_width: 4,
        },
        BinaryColumnDescriptor {
            name: Some(String::from("Y")),
            repeat: 1,
            col_type: BinaryColumnType::Double,
            byte_width: 8,
        },
    ];
    let col_data = vec![
        BinaryColumnData::Int(vec![1, 2]),
        double_data(vec![1.5, 2.5]),
    ];

    let hdu_bytes = serialize_binary_table_hdu(&columns, &col_data, 2).unwrap();

    // Should be block-aligned
    assert_eq!(hdu_bytes.len() % BLOCK_SIZE, 0);

    // Build a full FITS and parse it
    let mut fits = Vec::new();
    let primary_cards = vec![
        card_val("SIMPLE", Value::Logical(true)),
        card_val("BITPIX", Value::Integer(8)),
        card_val("NAXIS", Value::Integer(0)),
    ];
    fits.extend_from_slice(&serialize_header(&primary_cards));
    fits.extend_from_slice(&hdu_bytes);

    let parsed = fitsio_pure::hdu::parse_fits(&fits).unwrap();
    assert_eq!(parsed.len(), 2);

    let hdu = parsed.get(1).unwrap();
    let x_col = read_binary_column(&fits, hdu, 0).unwrap();
    assert_eq!(x_col, BinaryColumnData::Int(vec![1, 2]));

    let y_col = read_binary_column(&fits, hdu, 1).unwrap();
    match y_col {
        BinaryColumnData::Double(vals) => {
            let vals = f64s(&vals);
            assert!((vals[0] - 1.5).abs() < 1e-10);
            assert!((vals[1] - 2.5).abs() < 1e-10);
        }
        other => panic!("Expected Double, got {:?}", other),
    }
}

