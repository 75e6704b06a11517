use fitsio_pure::block::padded_byte_len;
use fitsio_pure::extract::extract_hdu;
use fitsio_pure::hdu::{parse_fits, HduInfo};
use fitsio_pure::header::{serialize_header, Card};
use fitsio_pure::value::Value;

fn keyword_of(name: &str) -> [u8; 8] {
    let mut k = [b' '; 8];
    let bytes = name.as_bytes();
    let len = bytes.len().min(8);
    k[..len].copy_from_slice(&bytes[..len]);
    k
}

fn value_card(keyword: &str, value: Value) -> Card {
    Card { keyword: keyword_of(keyword), value: Some(value), comment: None }
}

fn primary_header_naxis0() -> Vec<Card> {
    vec![
        value_card("SIMPLE", Value::Logical(true)),
        value_card("BITPIX", Value::Integer(8)),
        value_card("NAXIS", Value::Integer(0)),
    ]
}

fn primary_image_header(bitpix: i64, dims: &[usize]) -> Vec<Card> {
    let mut cards = vec![
        value_card("SIMPLE", Value::Logical(true)),
        value_card("BITPIX", Value::Integer(bitpix)),
        value_card("NAXIS", Value::Integer(dims.len() as i64)),
    ];
    for (i, &d) in dims.iter().enumerate() {
        let kw = format!("NAXIS{}", i + 1);
        cards.push(value_card(&kw, Value::Integer(d as i64)));
    }
    cards
}

fn image_extension_header(bitpix: i64, dims: &[usize], extname: Option<&str>) -> Vec<Card> {
    let mut cards = vec![
        value_card("XTENSION", Value::String(String::from("IMAGE"))),
        value_card("BITPIX", Value::Integer(bitpix)),
        value_card("NAXIS", Value::Integer(dims.len() as i64)),
    ];
    for (i, &d) in dims.iter().enumerate() {
        let kw = format!("NAXIS{}", i + 1);
        cards.push(value_card(&kw, Value::Integer(d as i64)));
    }
    cards.push(value_card("PCOUNT", Value::Integer(0)));
    cards.push(value_card("GCOUNT", Value::Integer(1)));
    if let Some(name) = extname {
        cards.push(value_card("EXTNAME", Value::String(String::from(name))));
    }
    cards
}

fn bintable_extension_header(naxis1: usize, naxis2: usize, pcount: usize, tfields: usize, extname: Option<&str>) -> Vec<Card> {
    let mut cards = vec![
        value_card("XTENSION", Value::String(String::from("BINTABLE"))),
        value_card("BITPIX", Value::Integer(8)),
        value_card("NAXIS", Value::Integer(2)),
        value_card("NAXIS1", Value::Integer(naxis1 as i64)),
        value_card("NAXIS2", Value::Integer(naxis2 as i64)),
        value_card("PCOUNT", Value::Integer(pcount as i64)),
        value_card("GCOUNT", Value::Integer(1)),
        value_card("TFIELDS", Value::Integer(tfields as i64)),
    ];
    if let Some(name) = extname {
        cards.push(value_card("EXTNAME", Value::String(String::from(name))));
    }
    cards
}

fn build_fits_bytes(header_cards: &[Card], data_bytes: usize) -> Vec<u8> {
    let header = serialize_header(header_cards);
    let padded_data = padded_byte_len(data_bytes);
    let mut result = Vec::with_capacity(header.len() + padded_data);
    result.extend_from_slice(&header);
    result.resize(header.len() + padded_data, 0u8);
    result
}

fn build_multi_ext_fits() -> Vec<u8> {
    let primary_cards = primary_header_naxis0();
    let ext1_cards = image_extension_header(-32, &[32, 32], Some("SCI"));
    let ext2_cards = bintable_extension_header(24, 100, 0, 3, Some("EVENTS"));

    let primary_header = serialize_header(&primary_cards);
    let ext1_header = serialize_header(&ext1_cards);
    let ext1_data_padded = padded_byte_len(32 * 32 * 4);
    let ext2_header = serialize_header(&ext2_cards);
    let ext2_data_padded = padded_byte_len(24 * 100);

    let mut data = Vec::new();
    data.extend_from_slice(&primary_header);
    data.extend_from_slice(&ext1_header);
    data.resize(data.len() + ext1_data_padded, 0u8);
    data.extend_from_slice(&ext2_header);
    data.resize(data.len() + ext2_data_padded, 0u8);
    data
}

#[test]
fn extract_primary_hdu() {
    let cards = primary_image_header(16, &[64, 64]);
    let data_bytes = 64 * 64 * 2;
    let file_data = build_fits_bytes(&cards, data_bytes);
    let fits = parse_fits(&file_data).unwrap();

    let output = extract_hdu(&file_data, &fits, 0).unwrap();
    let re_parsed = parse_fits(&output).unwrap();
    assert_eq!(re_parsed.hdus.len(), 1);
    match &re_parsed.primary().info {
        HduInfo::Primary { bitpix, naxes } => {
            assert_eq!(*bitpix, 16);
            assert_eq!(naxes, &[64, 64]);
        }
        other => panic!("Expected Primary, got {:?}", other),
    }
}

#[test]
fn extract_extension_hdu() {
    let file_data = build_multi_ext_fits();
    let fits = parse_fits(&file_data).unwrap();
    assert_eq!(fits.hdus.len(), 3);

    let output = extract_hdu(&file_data, &fits, 1).unwrap();
    let re_parsed = parse_fits(&output).unwrap();

    assert_eq!(re_parsed.hdus.len(), 2);
    match &re_parsed.primary().info {
        HduInfo::Primary { bitpix, naxes } => {
            assert_eq!(*bitpix, 8);
            assert!(naxes.is_empty());
        }
        other => panic!("Expected Primary, got {:?}", other),
    }
    match &re_parsed.hdus[1].info {
        HduInfo::Image { bitpix, naxes } => {
            assert_eq!(*bitpix, -32);
            assert_eq!(naxes, &[32, 32]);
        }
        other => panic!("Expected Image, got {:?}", other),
    }
}

#[test]
fn extract_bintable_extension() {
    let file_data = build_multi_ext_fits();
    let fits = parse_fits(&file_data).unwrap();

    let output = extract_hdu(&file_data, &fits, 2).unwrap();
    let re_parsed = parse_fits(&output).unwrap();

    assert_eq!(re_parsed.hdus.len(), 2);
    match &re_parsed.hdus[1].info {
        HduInfo::BinaryTable { naxis1, naxis2, pcount, tfields } => {
            assert_eq!(*naxis1, 24);
            assert_eq!(*naxis2, 100);
            assert_eq!(*pcount, 0);
            assert_eq!(*tfields, 3);
        }
        other => panic!("Expected BinaryTable, got {:?}", other),
    }
}

#[test]
fn extract_out_of_range() {
    let cards = primary_header_naxis0();
    let file_data = build_fits_bytes(&cards, 0);
    let fits = parse_fits(&file_data).unwrap();

    let result = extract_hdu(&file_data, &fits, 5);
    assert!(result.is_err());
    assert!(result.unwrap_err().contains("out of range"));
}

#[test]
fn extract_primary_no_data() {
    let cards = primary_header_naxis0();
    let file_data = build_fits_bytes(&cards, 0);
    let fits = parse_fits(&file_data).unwrap();

    let output = extract_hdu(&file_data, &fits, 0).unwrap();
    let re_parsed = parse_fits(&output).unwrap();
    assert_eq!(re_parsed.hdus.len(), 1);
    assert_eq!(re_parsed.primary().data_len, 0);
}

#[test]
fn extract_out_of_range_message_counts_hdus() {
    let file_data = build_multi_ext_fits();
    let fits = parse_fits(&file_data).unwrap();
    assert_eq!(extract_hdu(&file_data, &fits, 7).unwrap_err(), "HDU index 7 out of range (file has 3 HDUs)");
}

#[test]
fn extract_keeps_extension_data_bytes() {
    let cards = primary_header_naxis0();
    let ext_cards = image_extension_header(8, &[4], None);
    let mut file_data = serialize_header(&cards);
    file_data.extend_from_slice(&serialize_header(&ext_cards));
    let start = file_data.len();
    file_data.extend_from_slice(&[1, 2, 3, 4]);
    file_data.resize(start + 2880, 0);
    let fits = parse_fits(&file_data).unwrap();

    let output = extract_hdu(&file_data, &fits, 1).unwrap();
    assert_eq!(output.len(), 3 * 2880);
    assert_eq!(&output[2 * 2880..2 * 2880 + 4], &[1, 2, 3, 4]);
}
