use fitsio_pure::block::BLOCK_SIZE;
use fitsio_pure::header::Card;
use fitsio_pure::hdu::HduInfo;
use fitsio_pure::value::Value;
use fitsio_pure::hdu::compute_data_byte_len;
use fitsio_pure::header::kw;
use fitsio_pure::block::padded_byte_len;
use fitsio_pure::hdu::parse_fits;
use fitsio_pure::header::serialize_header;
use std::string::String;
use std::vec;

fn make_keyword(name: &str) -> [u8; 8] {
    let mut k = [b' '; 8];
    let bytes = name.as_bytes();
    let len = bytes.len().min(8);
    k[..len].copy_from_slice(&bytes[..len]);
    k
}

fn card(keyword: &str, value: Value) -> Card {
    Card {
        keyword: kw(keyword.as_bytes()),
        value: Some(value),
        comment: None,
    }
}

fn primary_header_naxis0() -> Vec<Card> {
    vec![
        card("SIMPLE", Value::Logical(true)),
        card("BITPIX", Value::Integer(8)),
        card("NAXIS", Value::Integer(0)),
    ]
}

fn primary_header_image(bitpix: i64, dims: &[usize]) -> Vec<Card> {
    let mut cards = vec![
        card("SIMPLE", Value::Logical(true)),
        card("BITPIX", Value::Integer(bitpix)),
        card("NAXIS", Value::Integer(dims.len() as i64)),
    ];
    for (i, &d) in dims.iter().enumerate() {
        let kw = std::format!("NAXIS{}", i + 1);
        cards.push(card(&kw, Value::Integer(d as i64)));
    }
    cards
}

fn image_extension_header(bitpix: i64, dims: &[usize], extname: Option<&str>) -> Vec<Card> {
    let mut cards = vec![
        card("XTENSION", Value::String(String::from("IMAGE"))),
        card("BITPIX", Value::Integer(bitpix)),
        card("NAXIS", Value::Integer(dims.len() as i64)),
    ];
    for (i, &d) in dims.iter().enumerate() {
        let kw = std::format!("NAXIS{}", i + 1);
        cards.push(card(&kw, Value::Integer(d as i64)));
    }
    cards.push(card("PCOUNT", Value::Integer(0)));
    cards.push(card("GCOUNT", Value::Integer(1)));
    if let Some(name) = extname {
        cards.push(card("EXTNAME", Value::String(String::from(name))));
    }
    cards
}

fn bintable_extension_header(
    naxis1: usize,
    naxis2: usize,
    pcount: usize,
    tfields: usize,
    extname: Option<&str>,
) -> Vec<Card> {
    let mut cards = vec![
        card("XTENSION", Value::String(String::from("BINTABLE"))),
        card("BITPIX", Value::Integer(8)),
        card("NAXIS", Value::Integer(2)),
        card("NAXIS1", Value::Integer(naxis1 as i64)),
        card("NAXIS2", Value::Integer(naxis2 as i64)),
        card("PCOUNT", Value::Integer(pcount as i64)),
        card("GCOUNT", Value::Integer(1)),
        card("TFIELDS", Value::Integer(tfields as i64)),
    ];
    if let Some(name) = extname {
        cards.push(card("EXTNAME", Value::String(String::from(name))));
    }
    cards
}

fn build_fits_bytes(header_cards: &[Card], data_bytes: usize) -> Vec<u8> {
    let header = serialize_header(header_cards);
    let padded_data = padded_byte_len(data_bytes);
    let mut result = Vec::with_capacity(header.len() + padded_data);
    result.extend_from_slice(&header);
    result.resize(header.len() + padded_data, 0u8);
    result
}

#[test]
fn parse_minimal_primary_naxis0() {
    let cards = primary_header_naxis0();
    let data = build_fits_bytes(&cards, 0);
    let fits = parse_fits(&data).unwrap();

    assert_eq!(fits.len(), 1);
    assert!(!fits.is_empty());
    let primary = fits.primary();
    assert_eq!(primary.header_start, 0);
    assert_eq!(primary.data_start, BLOCK_SIZE);
    assert_eq!(primary.data_len, 0);
    match &primary.info {
        HduInfo::Primary { bitpix, naxes } => {
            assert_eq!(*bitpix, 8);
            assert!(naxes.is_empty());
        }
        other => panic!("Expected Primary, got {:?}", other),
    }
}

#[test]
fn parse_primary_with_image_data() {
    let dims = [100, 200];
    let bitpix: i64 = 16;
    let cards = primary_header_image(bitpix, &dims);
    let data_bytes = 100 * 200 * 2; // 16 bits = 2 bytes per pixel
    let data = build_fits_bytes(&cards, data_bytes);
    let fits = parse_fits(&data).unwrap();

    assert_eq!(fits.len(), 1);
    let primary = fits.primary();
    assert_eq!(primary.data_len, data_bytes);
    assert_eq!(primary.header_start, 0);
    assert_eq!(primary.data_start, BLOCK_SIZE);
    match &primary.info {
        HduInfo::Primary { bitpix, naxes } => {
            assert_eq!(*bitpix, 16);
            assert_eq!(naxes, &[100, 200]);
        }
        other => panic!("Expected Primary, got {:?}", other),
    }
}

#[test]
fn parse_primary_32bit_float_image() {
    let dims = [10, 10];
    let bitpix: i64 = -32;
    let cards = primary_header_image(bitpix, &dims);
    let data_bytes = 10 * 10 * 4;
    let data = build_fits_bytes(&cards, data_bytes);
    let fits = parse_fits(&data).unwrap();

    let primary = fits.primary();
    assert_eq!(primary.data_len, 400);
    match &primary.info {
        HduInfo::Primary { bitpix, naxes } => {
            assert_eq!(*bitpix, -32);
            assert_eq!(naxes, &[10, 10]);
        }
        other => panic!("Expected Primary, got {:?}", other),
    }
}

#[test]
fn parse_multi_extension_fits() {
    let primary_cards = primary_header_naxis0();
    let ext_cards = image_extension_header(16, &[64, 64], Some("SCI"));

    let primary_header = serialize_header(&primary_cards);
    let ext_header = serialize_header(&ext_cards);
    let ext_data_bytes = 64 * 64 * 2;
    let ext_data_padded = padded_byte_len(ext_data_bytes);

    let mut data = Vec::new();
    data.extend_from_slice(&primary_header);
    data.extend_from_slice(&ext_header);
    data.resize(data.len() + ext_data_padded, 0u8);

    let fits = parse_fits(&data).unwrap();
    assert_eq!(fits.len(), 2);

    let primary = fits.primary();
    assert_eq!(primary.data_len, 0);
    match &primary.info {
        HduInfo::Primary { bitpix, naxes } => {
            assert_eq!(*bitpix, 8);
            assert!(naxes.is_empty());
        }
        other => panic!("Expected Primary, got {:?}", other),
    }

    let ext = fits.get(1).unwrap();
    assert_eq!(ext.data_len, ext_data_bytes);
    match &ext.info {
        HduInfo::Image { bitpix, naxes } => {
            assert_eq!(*bitpix, 16);
            assert_eq!(naxes, &[64, 64]);
        }
        other => panic!("Expected Image, got {:?}", other),
    }
}

#[test]
fn find_by_name_lookup() {
    let primary_cards = primary_header_naxis0();
    let ext1_cards = image_extension_header(-32, &[32, 32], Some("SCI"));
    let ext2_cards = image_extension_header(16, &[10, 10], Some("ERR"));

    let primary_header = serialize_header(&primary_cards);
    let ext1_header = serialize_header(&ext1_cards);
    let ext1_data_bytes = 32 * 32 * 4;
    let ext1_data_padded = padded_byte_len(ext1_data_bytes);
    let ext2_header = serialize_header(&ext2_cards);
    let ext2_data_bytes = 10 * 10 * 2;
    let ext2_data_padded = padded_byte_len(ext2_data_bytes);

    let mut data = Vec::new();
    data.extend_from_slice(&primary_header);
    data.extend_from_slice(&ext1_header);
    data.resize(data.len() + ext1_data_padded, 0u8);
    data.extend_from_slice(&ext2_header);
    data.resize(data.len() + ext2_data_padded, 0u8);

    let fits = parse_fits(&data).unwrap();
    assert_eq!(fits.len(), 3);

    let sci = fits.find_by_name("SCI").unwrap();
    match &sci.info {
        HduInfo::Image { bitpix, naxes } => {
            assert_eq!(*bitpix, -32);
            assert_eq!(naxes, &[32, 32]);
        }
        other => panic!("Expected Image, got {:?}", other),
    }

    let err = fits.find_by_name("ERR").unwrap();
    match &err.info {
        HduInfo::Image { bitpix, naxes } => {
            assert_eq!(*bitpix, 16);
            assert_eq!(naxes, &[10, 10]);
        }
        other => panic!("Expected Image, got {:?}", other),
    }

    assert!(fits.find_by_name("MISSING").is_none());
}

#[test]
fn correct_byte_offsets() {
    let primary_cards = primary_header_image(8, &[100]);
    let primary_header = serialize_header(&primary_cards);
    let primary_data_bytes = 100;
    let primary_data_padded = padded_byte_len(primary_data_bytes);

    let ext_cards = image_extension_header(-64, &[50], None);
    let ext_header = serialize_header(&ext_cards);
    let ext_data_bytes = 50 * 8;
    let ext_data_padded = padded_byte_len(ext_data_bytes);

    let mut data = Vec::new();
    data.extend_from_slice(&primary_header);
    data.resize(data.len() + primary_data_padded, 0u8);
    data.extend_from_slice(&ext_header);
    data.resize(data.len() + ext_data_padded, 0u8);

    let fits = parse_fits(&data).unwrap();
    assert_eq!(fits.len(), 2);

    let p = fits.primary();
    assert_eq!(p.header_start, 0);
    assert_eq!(p.data_start, primary_header.len());
    assert_eq!(p.data_len, primary_data_bytes);

    let ext = fits.get(1).unwrap();
    let expected_ext_header_start = primary_header.len() + primary_data_padded;
    assert_eq!(ext.header_start, expected_ext_header_start);
    assert_eq!(ext.data_start, expected_ext_header_start + ext_header.len());
    assert_eq!(ext.data_len, ext_data_bytes);
}

#[test]
fn data_length_calculation_naxis0() {
    let cards = primary_header_naxis0();
    let len = compute_data_byte_len(&cards, true).unwrap();
    assert_eq!(len, 0);
}

#[test]
fn data_length_calculation_2d_image() {
    let cards = primary_header_image(16, &[100, 200]);
    let len = compute_data_byte_len(&cards, true).unwrap();
    assert_eq!(len, 100 * 200 * 2);
}

#[test]
fn data_length_calculation_float64() {
    let cards = primary_header_image(-64, &[50, 50]);
    let len = compute_data_byte_len(&cards, true).unwrap();
    assert_eq!(len, 50 * 50 * 8);
}

#[test]
fn data_length_bintable_with_pcount() {
    let cards_vec = bintable_extension_header(24, 100, 500, 3, None);
    let len = compute_data_byte_len(&cards_vec, false).unwrap();
    assert_eq!(len, 24 * 100 + 500);
}

#[test]
fn error_on_empty_data() {
    assert!(parse_fits(&[]).is_err());
}

#[test]
fn error_on_too_small() {
    let data = vec![0u8; 100];
    assert!(parse_fits(&data).is_err());
}

#[test]
fn error_on_invalid_first_hdu() {
    let cards = vec![
        card("XTENSION", Value::String(String::from("IMAGE"))),
        card("BITPIX", Value::Integer(8)),
        card("NAXIS", Value::Integer(0)),
        card("PCOUNT", Value::Integer(0)),
        card("GCOUNT", Value::Integer(1)),
    ];
    let data = build_fits_bytes(&cards, 0);
    assert!(parse_fits(&data).is_err());
}

#[test]
fn error_on_truncated_data() {
    let cards = primary_header_image(16, &[100, 200]);
    let header = serialize_header(&cards);
    let mut data = Vec::new();
    data.extend_from_slice(&header);
    data.resize(header.len() + BLOCK_SIZE, 0u8);

    assert!(parse_fits(&data).is_err());
}

#[test]
fn iter_over_hdus() {
    let primary_cards = primary_header_naxis0();
    let ext_cards = image_extension_header(8, &[10], None);

    let mut data = Vec::new();
    data.extend_from_slice(&serialize_header(&primary_cards));
    data.extend_from_slice(&serialize_header(&ext_cards));
    data.resize(data.len() + padded_byte_len(10), 0u8);

    let fits = parse_fits(&data).unwrap();
    let count = fits.iter().count();
    assert_eq!(count, 2);
}

#[test]
fn get_out_of_bounds() {
    let cards = primary_header_naxis0();
    let data = build_fits_bytes(&cards, 0);
    let fits = parse_fits(&data).unwrap();
    assert!(fits.get(1).is_none());
}

#[test]
fn hdu_parse_bintable_extension() {
    let primary_cards = primary_header_naxis0();
    let ext_cards = bintable_extension_header(24, 100, 0, 3, Some("EVENTS"));

    let primary_header = serialize_header(&primary_cards);
    let ext_header = serialize_header(&ext_cards);
    let ext_data_bytes = 24 * 100;
    let ext_data_padded = padded_byte_len(ext_data_bytes);

    let mut data = Vec::new();
    data.extend_from_slice(&primary_header);
    data.extend_from_slice(&ext_header);
    data.resize(data.len() + ext_data_padded, 0u8);

    let fits = parse_fits(&data).unwrap();
    assert_eq!(fits.len(), 2);

    let ext = fits.get(1).unwrap();
    assert_eq!(ext.data_len, ext_data_bytes);
    match &ext.info {
        HduInfo::BinaryTable {
            naxis1,
            naxis2,
            pcount,
            tfields,
        } => {
            assert_eq!(*naxis1, 24);
            assert_eq!(*naxis2, 100);
            assert_eq!(*pcount, 0);
            assert_eq!(*tfields, 3);
        }
        other => panic!("Expected BinaryTable, got {:?}", other),
    }

    let found = fits.find_by_name("EVENTS").unwrap();
    assert_eq!(found.header_start, ext.header_start);
}

#[test]
fn three_extensions() {
    let primary_cards = primary_header_naxis0();
    let ext1 = image_extension_header(8, &[10], Some("A"));
    let ext2 = image_extension_header(16, &[20], Some("B"));
    let ext3 = image_extension_header(-32, &[30], Some("C"));

    let mut data = Vec::new();
    data.extend_from_slice(&serialize_header(&primary_cards));

    for (ext_cards, dim, bpp) in [(&ext1, 10usize, 1usize), (&ext2, 20, 2), (&ext3, 30, 4)] {
        data.extend_from_slice(&serialize_header(ext_cards));
        let db = dim * bpp;
        let padded = padded_byte_len(db);
        data.resize(data.len() + padded, 0u8);
    }

    let fits = parse_fits(&data).unwrap();
    assert_eq!(fits.len(), 4);

    assert!(fits.find_by_name("A").is_some());
    assert!(fits.find_by_name("B").is_some());
    assert!(fits.find_by_name("C").is_some());
}

fn random_groups_header(
    bitpix: i64,
    naxes: &[usize],
    pcount: usize,
    gcount: usize,
) -> Vec<Card> {
    // naxes should include NAXIS1=0 as the first element
    let naxis = naxes.len();
    let mut cards = vec![
        card("SIMPLE", Value::Logical(true)),
        card("BITPIX", Value::Integer(bitpix)),
        card("NAXIS", Value::Integer(naxis as i64)),
    ];
    for (i, &d) in naxes.iter().enumerate() {
        let kw = std::format!("NAXIS{}", i + 1);
        cards.push(card(&kw, Value::Integer(d as i64)));
    }
    cards.push(card("GROUPS", Value::Logical(true)));
    cards.push(card("PCOUNT", Value::Integer(pcount as i64)));
    cards.push(card("GCOUNT", Value::Integer(gcount as i64)));
    cards
}

#[test]
fn parse_random_groups_synthetic() {
    // BITPIX=-32, NAXIS=6, NAXIS1=0, NAXIS2=3, NAXIS3=4, NAXIS4-6=1
    // GROUPS=T, PCOUNT=6, GCOUNT=2
    // data_bytes = 4 * 2 * (6 + 3*4*1*1*1) = 4 * 2 * 18 = 144
    let cards = random_groups_header(-32, &[0, 3, 4, 1, 1, 1], 6, 2);
    let data_bytes = 144; // 4 * 2 * (6 + 3*4*1*1*1)
    let data = build_fits_bytes(&cards, data_bytes);
    let fits = parse_fits(&data).unwrap();

    assert_eq!(fits.len(), 1);
    let primary = fits.primary();
    assert_eq!(primary.data_len, 144);
    match &primary.info {
        HduInfo::RandomGroups {
            bitpix,
            naxes,
            pcount,
            gcount,
        } => {
            assert_eq!(*bitpix, -32);
            assert_eq!(naxes, &[3, 4, 1, 1, 1]);
            assert_eq!(*pcount, 6);
            assert_eq!(*gcount, 2);
        }
        other => panic!("Expected RandomGroups, got {:?}", other),
    }
}

#[test]
fn random_groups_data_length() {
    let cards = random_groups_header(-32, &[0, 3, 4, 1, 1, 1], 6, 2);
    let len = compute_data_byte_len(&cards, true).unwrap();
    assert_eq!(len, 144);
}

#[test]
fn primary_3d_cube() {
    let dims = [10, 20, 30];
    let bitpix: i64 = -32;
    let cards = primary_header_image(bitpix, &dims);
    let data_bytes = 10 * 20 * 30 * 4;
    let data = build_fits_bytes(&cards, data_bytes);
    let fits = parse_fits(&data).unwrap();

    let primary = fits.primary();
    assert_eq!(primary.data_len, data_bytes);
    match &primary.info {
        HduInfo::Primary { bitpix, naxes } => {
            assert_eq!(*bitpix, -32);
            assert_eq!(naxes, &[10, 20, 30]);
        }
        other => panic!("Expected Primary, got {:?}", other),
    }
}

