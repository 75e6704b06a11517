use fitsio_pure::block::BLOCK_SIZE;
use fitsio_pure::header::Card;
use fitsio_pure::error::Error;
use fitsio_pure::extension::ExtensionType;
use fitsio_pure::header::HduType;
use fitsio_pure::value::Value;
use fitsio_pure::extension::build_extension_header;
use fitsio_pure::header::kw;
use fitsio_pure::extension::parse_extension_header;

use std::string::String;

fn card(keyword: &[u8], value: Option<Value>) -> Card {
    Card {
        keyword: kw(keyword),
        value,
        comment: None,
    }
}

fn make_image_cards() -> Vec<Card> {
    vec![
        card(b"XTENSION", Some(Value::String(String::from("IMAGE")))),
        card(b"BITPIX", Some(Value::Integer(-32))),
        card(b"NAXIS", Some(Value::Integer(2))),
        card(b"NAXIS1", Some(Value::Integer(512))),
        card(b"NAXIS2", Some(Value::Integer(256))),
        card(b"PCOUNT", Some(Value::Integer(0))),
        card(b"GCOUNT", Some(Value::Integer(1))),
    ]
}

fn make_ascii_table_cards() -> Vec<Card> {
    vec![
        card(b"XTENSION", Some(Value::String(String::from("TABLE")))),
        card(b"BITPIX", Some(Value::Integer(8))),
        card(b"NAXIS", Some(Value::Integer(2))),
        card(b"NAXIS1", Some(Value::Integer(100))),
        card(b"NAXIS2", Some(Value::Integer(50))),
        card(b"PCOUNT", Some(Value::Integer(0))),
        card(b"GCOUNT", Some(Value::Integer(1))),
        card(b"TFIELDS", Some(Value::Integer(5))),
    ]
}

fn make_bintable_cards() -> Vec<Card> {
    vec![
        card(b"XTENSION", Some(Value::String(String::from("BINTABLE")))),
        card(b"BITPIX", Some(Value::Integer(8))),
        card(b"NAXIS", Some(Value::Integer(2))),
        card(b"NAXIS1", Some(Value::Integer(32))),
        card(b"NAXIS2", Some(Value::Integer(1000))),
        card(b"PCOUNT", Some(Value::Integer(0))),
        card(b"GCOUNT", Some(Value::Integer(1))),
        card(b"TFIELDS", Some(Value::Integer(3))),
    ]
}

#[test]
fn parse_image_extension() {
    let cards = make_image_cards();
    let hdr = parse_extension_header(&cards).unwrap();
    assert_eq!(hdr.xtension, ExtensionType::Image);
    assert_eq!(hdr.bitpix, -32);
    assert_eq!(hdr.naxis, 2);
    assert_eq!(hdr.naxes, vec![512, 256]);
    assert_eq!(hdr.pcount, 0);
    assert_eq!(hdr.gcount, 1);
}

#[test]
fn parse_ascii_table_extension() {
    let cards = make_ascii_table_cards();
    let hdr = parse_extension_header(&cards).unwrap();
    assert_eq!(hdr.xtension, ExtensionType::AsciiTable);
    assert_eq!(hdr.bitpix, 8);
    assert_eq!(hdr.naxis, 2);
    assert_eq!(hdr.naxes, vec![100, 50]);
    assert_eq!(hdr.pcount, 0);
    assert_eq!(hdr.gcount, 1);
}

#[test]
fn extension_parse_bintable_extension() {
    let cards = make_bintable_cards();
    let hdr = parse_extension_header(&cards).unwrap();
    assert_eq!(hdr.xtension, ExtensionType::BinaryTable);
    assert_eq!(hdr.bitpix, 8);
    assert_eq!(hdr.naxis, 2);
    assert_eq!(hdr.naxes, vec![32, 1000]);
    assert_eq!(hdr.pcount, 0);
    assert_eq!(hdr.gcount, 1);
}

#[test]
fn data_byte_count_image() {
    let cards = make_image_cards();
    let hdr = parse_extension_header(&cards).unwrap();
    // |BITPIX|/8 * 512 * 256 = 4 * 512 * 256 = 524288
    assert_eq!(hdr.data_byte_count(), 4 * 512 * 256);
}

#[test]
fn data_byte_count_ascii_table() {
    let cards = make_ascii_table_cards();
    let hdr = parse_extension_header(&cards).unwrap();
    // 1 * 100 * 50 + 0 = 5000
    assert_eq!(hdr.data_byte_count(), 100 * 50);
}

#[test]
fn data_byte_count_bintable() {
    let cards = make_bintable_cards();
    let hdr = parse_extension_header(&cards).unwrap();
    // 1 * 32 * 1000 + 0 = 32000
    assert_eq!(hdr.data_byte_count(), 32 * 1000);
}

#[test]
fn data_byte_count_bintable_with_heap() {
    let mut cards = make_bintable_cards();
    // Set PCOUNT to 4096 to simulate a heap
    for c in cards.iter_mut() {
        if c.keyword_str() == "PCOUNT" {
            c.value = Some(Value::Integer(4096));
        }
    }
    let hdr = parse_extension_header(&cards).unwrap();
    assert_eq!(hdr.data_byte_count(), 32 * 1000 + 4096);
}

#[test]
fn data_byte_count_zero_naxis() {
    let cards = vec![
        card(b"XTENSION", Some(Value::String(String::from("IMAGE")))),
        card(b"BITPIX", Some(Value::Integer(-64))),
        card(b"NAXIS", Some(Value::Integer(0))),
        card(b"PCOUNT", Some(Value::Integer(0))),
        card(b"GCOUNT", Some(Value::Integer(1))),
    ];
    let hdr = parse_extension_header(&cards).unwrap();
    assert_eq!(hdr.data_byte_count(), 0);
}

#[test]
fn padded_byte_count_image() {
    let cards = make_image_cards();
    let hdr = parse_extension_header(&cards).unwrap();
    let raw = hdr.data_byte_count();
    let padded = hdr.data_padded_byte_count();
    assert_eq!(padded % BLOCK_SIZE, 0);
    assert!(padded >= raw);
    // 524288 / 2880 = 182.0..., so 183 blocks = 527040
    assert_eq!(padded, 183 * BLOCK_SIZE);
}

#[test]
fn padded_byte_count_ascii_table() {
    let cards = make_ascii_table_cards();
    let hdr = parse_extension_header(&cards).unwrap();
    let raw = hdr.data_byte_count();
    let padded = hdr.data_padded_byte_count();
    assert_eq!(padded % BLOCK_SIZE, 0);
    assert!(padded >= raw);
    // 5000 / 2880 = 1.74, so 2 blocks = 5760
    assert_eq!(padded, 2 * BLOCK_SIZE);
}

#[test]
fn padded_byte_count_bintable() {
    let cards = make_bintable_cards();
    let hdr = parse_extension_header(&cards).unwrap();
    let raw = hdr.data_byte_count();
    let padded = hdr.data_padded_byte_count();
    assert_eq!(padded % BLOCK_SIZE, 0);
    assert!(padded >= raw);
    // 32000 / 2880 = 11.11, so 12 blocks = 34560
    assert_eq!(padded, 12 * BLOCK_SIZE);
}

#[test]
fn padded_byte_count_zero_data() {
    let cards = vec![
        card(b"XTENSION", Some(Value::String(String::from("IMAGE")))),
        card(b"BITPIX", Some(Value::Integer(8))),
        card(b"NAXIS", Some(Value::Integer(0))),
        card(b"PCOUNT", Some(Value::Integer(0))),
        card(b"GCOUNT", Some(Value::Integer(1))),
    ];
    let hdr = parse_extension_header(&cards).unwrap();
    assert_eq!(hdr.data_padded_byte_count(), 0);
}

#[test]
fn build_then_parse_image_roundtrip() {
    let cards = build_extension_header(ExtensionType::Image, -32, &[512, 256], 0, 1).unwrap();
    let hdr = parse_extension_header(&cards).unwrap();
    assert_eq!(hdr.xtension, ExtensionType::Image);
    assert_eq!(hdr.bitpix, -32);
    assert_eq!(hdr.naxis, 2);
    assert_eq!(hdr.naxes, vec![512, 256]);
    assert_eq!(hdr.pcount, 0);
    assert_eq!(hdr.gcount, 1);
}

#[test]
fn build_then_parse_ascii_table_roundtrip() {
    let mut cards =
        build_extension_header(ExtensionType::AsciiTable, 8, &[100, 50], 0, 1).unwrap();
    cards.push(card(b"TFIELDS", Some(Value::Integer(5))));
    let hdr = parse_extension_header(&cards).unwrap();
    assert_eq!(hdr.xtension, ExtensionType::AsciiTable);
    assert_eq!(hdr.bitpix, 8);
    assert_eq!(hdr.naxes, vec![100, 50]);
}

#[test]
fn build_then_parse_bintable_roundtrip() {
    let mut cards =
        build_extension_header(ExtensionType::BinaryTable, 8, &[32, 1000], 512, 1).unwrap();
    cards.push(card(b"TFIELDS", Some(Value::Integer(3))));
    let hdr = parse_extension_header(&cards).unwrap();
    assert_eq!(hdr.xtension, ExtensionType::BinaryTable);
    assert_eq!(hdr.bitpix, 8);
    assert_eq!(hdr.naxes, vec![32, 1000]);
    assert_eq!(hdr.pcount, 512);
    assert_eq!(hdr.gcount, 1);
}

#[test]
fn error_on_unknown_xtension() {
    let cards = vec![
        card(b"XTENSION", Some(Value::String(String::from("UNKNOWN")))),
        card(b"BITPIX", Some(Value::Integer(8))),
        card(b"NAXIS", Some(Value::Integer(0))),
        card(b"PCOUNT", Some(Value::Integer(0))),
        card(b"GCOUNT", Some(Value::Integer(1))),
    ];
    assert!(matches!(
        parse_extension_header(&cards),
        Err(Error::UnsupportedExtension)
    ));
}

#[test]
fn error_on_missing_xtension() {
    let cards = vec![
        card(b"BITPIX", Some(Value::Integer(8))),
        card(b"NAXIS", Some(Value::Integer(0))),
    ];
    assert!(matches!(
        parse_extension_header(&cards),
        Err(Error::MissingKeyword("XTENSION"))
    ));
}

#[test]
fn error_on_empty_cards() {
    let cards: Vec<Card> = vec![];
    assert!(parse_extension_header(&cards).is_err());
}

#[test]
fn extension_type_as_str() {
    assert_eq!(ExtensionType::Image.as_str(), "IMAGE");
    assert_eq!(ExtensionType::AsciiTable.as_str(), "TABLE");
    assert_eq!(ExtensionType::BinaryTable.as_str(), "BINTABLE");
}

#[test]
fn extension_type_hdu_type() {
    assert_eq!(ExtensionType::Image.hdu_type(), HduType::Image);
    assert_eq!(ExtensionType::AsciiTable.hdu_type(), HduType::AsciiTable);
    assert_eq!(ExtensionType::BinaryTable.hdu_type(), HduType::BinaryTable);
}

#[test]
fn extension_type_clone_copy_eq() {
    let a = ExtensionType::Image;
    let b = a;
    assert_eq!(a, b);
}

#[test]
fn data_byte_count_image_3d() {
    let cards = vec![
        card(b"XTENSION", Some(Value::String(String::from("IMAGE")))),
        card(b"BITPIX", Some(Value::Integer(16))),
        card(b"NAXIS", Some(Value::Integer(3))),
        card(b"NAXIS1", Some(Value::Integer(100))),
        card(b"NAXIS2", Some(Value::Integer(200))),
        card(b"NAXIS3", Some(Value::Integer(10))),
        card(b"PCOUNT", Some(Value::Integer(0))),
        card(b"GCOUNT", Some(Value::Integer(1))),
    ];
    let hdr = parse_extension_header(&cards).unwrap();
    // |16|/8 * 100 * 200 * 10 = 2 * 200000 = 400000
    assert_eq!(hdr.data_byte_count(), 2 * 100 * 200 * 10);
}

#[test]
fn padded_byte_count_exact_block_multiple() {
    // 2880 bytes of data should need exactly 1 block
    let cards = vec![
        card(b"XTENSION", Some(Value::String(String::from("IMAGE")))),
        card(b"BITPIX", Some(Value::Integer(8))),
        card(b"NAXIS", Some(Value::Integer(2))),
        card(b"NAXIS1", Some(Value::Integer(2880))),
        card(b"NAXIS2", Some(Value::Integer(1))),
        card(b"PCOUNT", Some(Value::Integer(0))),
        card(b"GCOUNT", Some(Value::Integer(1))),
    ];
    let hdr = parse_extension_header(&cards).unwrap();
    assert_eq!(hdr.data_byte_count(), BLOCK_SIZE);
    assert_eq!(hdr.data_padded_byte_count(), BLOCK_SIZE);
}

#[test]
fn build_zero_naxis_image() {
    let cards = build_extension_header(ExtensionType::Image, -64, &[], 0, 1).unwrap();
    let hdr = parse_extension_header(&cards).unwrap();
    assert_eq!(hdr.naxis, 0);
    assert!(hdr.naxes.is_empty());
    assert_eq!(hdr.data_byte_count(), 0);
}

#[test]
fn xtension_with_trailing_spaces() {
    let cards = vec![
        card(b"XTENSION", Some(Value::String(String::from("IMAGE   ")))),
        card(b"BITPIX", Some(Value::Integer(8))),
        card(b"NAXIS", Some(Value::Integer(0))),
        card(b"PCOUNT", Some(Value::Integer(0))),
        card(b"GCOUNT", Some(Value::Integer(1))),
    ];
    let hdr = parse_extension_header(&cards).unwrap();
    assert_eq!(hdr.xtension, ExtensionType::Image);
}

#[test]
fn cards_preserved_in_header() {
    let cards = make_image_cards();
    let hdr = parse_extension_header(&cards).unwrap();
    assert_eq!(hdr.cards.len(), cards.len());
    assert_eq!(hdr.cards[0].keyword_str(), "XTENSION");
}

#[test]
fn build_extension_header_card_count() {
    let cards = build_extension_header(ExtensionType::Image, -32, &[100, 200], 0, 1).unwrap();
    // XTENSION + BITPIX + NAXIS + NAXIS1 + NAXIS2 + PCOUNT + GCOUNT = 7
    assert_eq!(cards.len(), 7);
}

#[test]
fn build_extension_header_card_order() {
    let cards =
        build_extension_header(ExtensionType::BinaryTable, 8, &[32, 500], 128, 1).unwrap();
    assert_eq!(cards[0].keyword_str(), "XTENSION");
    assert_eq!(cards[1].keyword_str(), "BITPIX");
    assert_eq!(cards[2].keyword_str(), "NAXIS");
    assert_eq!(cards[3].keyword_str(), "NAXIS1");
    assert_eq!(cards[4].keyword_str(), "NAXIS2");
    assert_eq!(cards[5].keyword_str(), "PCOUNT");
    assert_eq!(cards[6].keyword_str(), "GCOUNT");
}

