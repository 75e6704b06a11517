use fitsio_pure::block::padded_byte_len;
use fitsio_pure::header::{serialize_header, Card};
use fitsio_pure::info::{format_fits_info, format_hdu};
use fitsio_pure::value::Value;

fn keyword_of(name: &str) -> [u8; 8] {
    let mut k = [b' '; 8];
    let bytes = name.as_bytes();
    let len = bytes.len().min(8);
    k[..len].copy_from_slice(&bytes[..len]);
    k
}

fn value_card(keyword: &str, value: Value) -> Card {
    Card { keyword: keyword_of(keyword), value: Some(value), comment: None }
}

fn primary_header_naxis0() -> Vec<Card> {
    vec![
        value_card("SIMPLE", Value::Logical(true)),
        value_card("BITPIX", Value::Integer(8)),
        value_card("NAXIS", Value::Integer(0)),
    ]
}

fn primary_image_header(bitpix: i64, dims: &[usize]) -> Vec<Card> {
    let mut cards = vec![
        value_card("SIMPLE", Value::Logical(true)),
        value_card("BITPIX", Value::Integer(bitpix)),
        value_card("NAXIS", Value::Integer(dims.len() as i64)),
    ];
    for (i, &d) in dims.iter().enumerate() {
        let kw = format!("NAXIS{}", i + 1);
        cards.push(value_card(&kw, Value::Integer(d as i64)));
    }
    cards
}

fn image_extension_header(bitpix: i64, dims: &[usize], extname: Option<&str>) -> Vec<Card> {
    let mut cards = vec![
        value_card("XTENSION", Value::String(String::from("IMAGE"))),
        value_card("BITPIX", Value::Integer(bitpix)),
        value_card("NAXIS", Value::Integer(dims.len() as i64)),
    ];
    for (i, &d) in dims.iter().enumerate() {
        let kw = format!("NAXIS{}", i + 1);
        cards.push(value_card(&kw, Value::Integer(d as i64)));
    }
    cards.push(value_card("PCOUNT", Value::Integer(0)));
    cards.push(value_card("GCOUNT", Value::Integer(1)));
    if let Some(name) = extname {
        cards.push(value_card("EXTNAME", Value::String(String::from(name))));
    }
    cards
}

fn bintable_extension_header(naxis1: usize, naxis2: usize, pcount: usize, tfields: usize, extname: Option<&str>) -> Vec<Card> {
    let mut cards = vec![
        value_card("XTENSION", Value::String(String::from("BINTABLE"))),
        value_card("BITPIX", Value::Integer(8)),
        value_card("NAXIS", Value::Integer(2)),
        value_card("NAXIS1", Value::Integer(naxis1 as i64)),
        value_card("NAXIS2", Value::Integer(naxis2 as i64)),
        value_card("PCOUNT", Value::Integer(pcount as i64)),
        value_card("GCOUNT", Value::Integer(1)),
        value_card("TFIELDS", Value::Integer(tfields as i64)),
    ];
    if let Some(name) = extname {
        cards.push(value_card("EXTNAME", Value::String(String::from(name))));
    }
    cards
}

fn build_fits_bytes(header_cards: &[Card], data_bytes: usize) -> Vec<u8> {
    let header = serialize_header(header_cards);
    let padded_data = padded_byte_len(data_bytes);
    let mut result = Vec::with_capacity(header.len() + padded_data);
    result.extend_from_slice(&header);
    result.resize(header.len() + padded_data, 0u8);
    result
}

#[test]
fn format_primary_naxis0() {
    let cards = primary_header_naxis0();
    let data = build_fits_bytes(&cards, 0);
    let fits = fitsio_pure::hdu::parse_fits(&data).unwrap();
    let output = format_fits_info(&fits);

    assert!(output.contains("HDU 0: Primary"));
    assert!(output.contains("BITPIX: 8"));
    assert!(output.contains("NAXIS: 0"));
    assert!(output.contains("Data size: 0 bytes"));
}

#[test]
fn format_primary_with_image() {
    let cards = primary_image_header(16, &[1024, 1024]);
    let data_bytes = 1024 * 1024 * 2;
    let data = build_fits_bytes(&cards, data_bytes);
    let fits = fitsio_pure::hdu::parse_fits(&data).unwrap();
    let output = format_fits_info(&fits);

    assert!(output.contains("HDU 0: Primary"));
    assert!(output.contains("BITPIX: 16"));
    assert!(output.contains("NAXIS: 2"));
    assert!(output.contains("Dimensions: [1024, 1024]"));
    assert!(output.contains("Data size: 2097152 bytes"));
}

#[test]
fn format_multi_extension() {
    let primary_cards = primary_header_naxis0();
    let ext_cards = image_extension_header(-32, &[512, 512], Some("SCI"));
    let primary_header = serialize_header(&primary_cards);
    let ext_header = serialize_header(&ext_cards);
    let ext_data_bytes = 512 * 512 * 4;
    let ext_data_padded = padded_byte_len(ext_data_bytes);
    let mut data = Vec::new();
    data.extend_from_slice(&primary_header);
    data.extend_from_slice(&ext_header);
    data.resize(data.len() + ext_data_padded, 0u8);

    let fits = fitsio_pure::hdu::parse_fits(&data).unwrap();
    let output = format_fits_info(&fits);

    assert!(output.contains("HDU 0: Primary"));
    assert!(output.contains("HDU 1: IMAGE extension (EXTNAME: SCI)"));
    assert!(output.contains("BITPIX: -32"));
    assert!(output.contains("Dimensions: [512, 512]"));
    assert!(output.contains("Data size: 1048576 bytes"));
}

#[test]
fn format_bintable_extension_summary() {
    let primary_header = serialize_header(&primary_header_naxis0());
    let ext_header = serialize_header(&bintable_extension_header(40, 10000, 1234, 5, Some("EVENTS")));
    let mut data = Vec::new();
    data.extend_from_slice(&primary_header);
    data.extend_from_slice(&ext_header);
    data.resize(data.len() + padded_byte_len(40 * 10000 + 1234), 0u8);
    let fits = fitsio_pure::hdu::parse_fits(&data).unwrap();
    let text = format_hdu(1, &fits.hdus[1]);
    assert_eq!(
        text,
        "HDU 1: BINTABLE extension (EXTNAME: EVENTS)\n  Columns: 5\n  Rows: 10000\n  Row width: 40 bytes\n  Data size: 400000 bytes\n  Heap size: 1234 bytes\n"
    );
}

#[test]
fn format_whole_file_separates_hdus() {
    let data = build_fits_bytes(&primary_header_naxis0(), 0);
    let fits = fitsio_pure::hdu::parse_fits(&data).unwrap();
    assert_eq!(
        format_fits_info(&fits),
        "HDU 0: Primary\n  BITPIX: 8\n  NAXIS: 0\n  Data size: 0 bytes\n"
    );
}

#[test]
fn format_bintable_extension() {
    let primary_cards = primary_header_naxis0();
    let ext_cards = bintable_extension_header(40, 10000, 1234, 5, Some("EVENTS"));

    let primary_header = serialize_header(&primary_cards);
    let ext_header = serialize_header(&ext_cards);
    let ext_data_bytes = 40 * 10000 + 1234;
    let ext_data_padded = padded_byte_len(ext_data_bytes);

    let mut data = Vec::new();
    data.extend_from_slice(&primary_header);
    data.extend_from_slice(&ext_header);
    data.resize(data.len() + ext_data_padded, 0u8);

    let fits = fitsio_pure::hdu::parse_fits(&data).unwrap();
    let output = format_fits_info(&fits);

    assert!(output.contains("HDU 1: BINTABLE extension (EXTNAME: EVENTS)"));
    assert!(output.contains("Columns: 5"));
    assert!(output.contains("Rows: 10000"));
    assert!(output.contains("Row width: 40 bytes"));
    assert!(output.contains("Data size: 400000 bytes"));
    assert!(output.contains("Heap size: 1234 bytes"));
}

#[test]
fn format_bintable_no_heap() {
    let primary_cards = primary_header_naxis0();
    let ext_cards = bintable_extension_header(24, 100, 0, 3, None);

    let primary_header = serialize_header(&primary_cards);
    let ext_header = serialize_header(&ext_cards);
    let ext_data_bytes = 24 * 100;
    let ext_data_padded = padded_byte_len(ext_data_bytes);

    let mut data = Vec::new();
    data.extend_from_slice(&primary_header);
    data.extend_from_slice(&ext_header);
    data.resize(data.len() + ext_data_padded, 0u8);

    let fits = fitsio_pure::hdu::parse_fits(&data).unwrap();
    let output = format_fits_info(&fits);

    assert!(output.contains("HDU 1: BINTABLE extension"));
    assert!(!output.contains("Heap size:"));
}

fn build_multi_ext_fits() -> Vec<u8> {
    let primary_cards = primary_header_naxis0();
    let ext1_cards = image_extension_header(-32, &[32, 32], Some("SCI"));
    let ext2_cards = bintable_extension_header(24, 100, 0, 3, Some("EVENTS"));

    let primary_header = serialize_header(&primary_cards);
    let ext1_header = serialize_header(&ext1_cards);
    let ext1_data_padded = padded_byte_len(32 * 32 * 4);
    let ext2_header = serialize_header(&ext2_cards);
    let ext2_data_padded = padded_byte_len(24 * 100);

    let mut data = Vec::new();
    data.extend_from_slice(&primary_header);
    data.extend_from_slice(&ext1_header);
    data.resize(data.len() + ext1_data_padded, 0u8);
    data.extend_from_slice(&ext2_header);
    data.resize(data.len() + ext2_data_padded, 0u8);
    data
}

#[test]
fn info_subcommand_format() {
    let file_data = build_multi_ext_fits();
    let fits = fitsio_pure::hdu::parse_fits(&file_data).unwrap();
    let output = format_fits_info(&fits);

    assert!(output.contains("HDU 0: Primary"));
    assert!(output.contains("HDU 1: IMAGE extension (EXTNAME: SCI)"));
    assert!(output.contains("HDU 2: BINTABLE extension (EXTNAME: EVENTS)"));
}
